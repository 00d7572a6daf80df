use vstd::prelude::*;
use vstd::string::StringSliceAdditionalSpecFns;

use crate::scan::{absent_in, first_in_chunk, CHUNK};
use crate::span::Match;

verus! {

/// The byte `!`.
pub const BANG: u8 = 0x21;

/// The byte ` `.
pub const SPACE: u8 = 0x20;

/// A bang starts at `i`: a `!` at the start of the text or right after a
/// space, followed by a byte that is not a space.
pub open spec fn starts_bang(b: Seq<u8>, i: int) -> bool {
    0 <= i && i + 1 < b.len() && b[i] == BANG && (i == 0 || b[i - 1] == SPACE) && b[i + 1]
        != SPACE
}

/// Where the run of non-space bytes that goes on at `i` ends: the next space
/// at or after `i`, or the end of the text.
pub open spec fn word_end(b: Seq<u8>, i: int) -> int
    decreases b.len() - i,
{
    if i < 0 || i >= b.len() || b[i] == SPACE {
        i
    } else {
        word_end(b, i + 1)
    }
}

/// The first bang at or after `i`, from its `!` to the end of its word.
pub open spec fn bang_from(b: Seq<u8>, i: int) -> Option<Match>
    decreases b.len() - i,
{
    if i < 0 || i >= b.len() {
        None
    } else if starts_bang(b, i) {
        Some(Match { start: i as usize, end: word_end(b, i + 1) as usize })
    } else {
        bang_from(b, i + 1)
    }
}

/// The first bang of a text.
pub open spec fn bang_span(b: Seq<u8>) -> Option<Match> {
    bang_from(b, 0)
}

proof fn lemma_word_end_bounds(b: Seq<u8>, i: int)
    requires
        0 <= i <= b.len(),
    ensures
        i <= word_end(b, i) <= b.len(),
        word_end(b, i) == b.len() || b[word_end(b, i)] == SPACE,
        forall|k: int| i <= k < word_end(b, i) ==> b[k] != SPACE,
    decreases b.len() - i,
{
    if i < b.len() && b[i] != SPACE {
        lemma_word_end_bounds(b, i + 1);
    }
}

/// What the first bang of a text is: a bang start with none before it,
/// covering its `!` and the non-space bytes after it. Without a bang start
/// anywhere, there is none.
pub proof fn lemma_bang_span_shape(b: Seq<u8>)
    requires
        b.len() <= usize::MAX,
    ensures
        match bang_span(b) {
            None => forall|i: int| !starts_bang(b, i),
            Some(m) => {
                &&& starts_bang(b, m.start as int)
                &&& forall|i: int| 0 <= i < m.start ==> !starts_bang(b, i)
                &&& m.start < m.end <= b.len()
                &&& m.end == b.len() || b[m.end as int] == SPACE
                &&& forall|k: int| m.start < k < m.end ==> b[k] != SPACE
            },
        },
{
    lemma_bang_from_shape(b, 0);
}

proof fn lemma_bang_from_shape(b: Seq<u8>, i: int)
    requires
        0 <= i <= b.len(),
        b.len() <= usize::MAX,
        forall|k: int| 0 <= k < i ==> !starts_bang(b, k),
    ensures
        match bang_from(b, i) {
            None => forall|k: int| !starts_bang(b, k),
            Some(m) => {
                &&& starts_bang(b, m.start as int)
                &&& forall|k: int| 0 <= k < m.start ==> !starts_bang(b, k)
                &&& m.start < m.end <= b.len()
                &&& m.end == b.len() || b[m.end as int] == SPACE
                &&& forall|k: int| m.start < k < m.end ==> b[k] != SPACE
            },
        },
    decreases b.len() - i,
{
    if i >= b.len() {
    } else if starts_bang(b, i) {
        lemma_word_end_bounds(b, i + 1);
    } else {
        lemma_bang_from_shape(b, i + 1);
    }
}

proof fn lemma_skip_without_bang(b: Seq<u8>, from: int, to: int)
    requires
        0 <= from <= to <= b.len(),
        absent_in(b, from, to, BANG),
    ensures
        bang_from(b, from) == bang_from(b, to),
    decreases to - from,
{
    if from < to {
        lemma_skip_without_bang(b, from + 1, to);
    }
}

/// Where the word that goes on at `i` ends.
fn scan_word_end(bytes: &[u8], i: usize) -> (r: usize)
    requires
        i <= bytes@.len(),
    ensures
        r == word_end(bytes@, i as int),
{
    let n = bytes.len();
    let mut k = i;
    while k < n && bytes[k] != SPACE
        invariant
            i <= k <= n,
            n == bytes@.len(),
            word_end(bytes@, i as int) == word_end(bytes@, k as int),
        decreases n - k,
    {
        k = k + 1;
    }
    k
}

/// Tests one position for the start of a bang.
fn is_bang_start(bytes: &[u8], i: usize) -> (r: bool)
    requires
        i < bytes@.len(),
    ensures
        r == starts_bang(bytes@, i as int),
{
    let n = bytes.len();
    bytes[i] == BANG && (i == 0 || bytes[i - 1] == SPACE) && i + 1 < n && bytes[i + 1] != SPACE
}

/// Byte-at-a-time search for the first bang at or after `from`.
fn scan_bang_from(bytes: &[u8], from: usize) -> (r: Option<Match>)
    requires
        from <= bytes@.len(),
    ensures
        r == bang_from(bytes@, from as int),
{
    let n = bytes.len();
    let mut i = from;
    while i < n
        invariant
            from <= i <= n,
            n == bytes@.len(),
            bang_from(bytes@, from as int) == bang_from(bytes@, i as int),
        decreases n - i,
    {
        if is_bang_start(bytes, i) {
            let end = scan_word_end(bytes, i + 1);
            return Some(Match::new(i, end));
        }
        i = i + 1;
    }
    None
}

/// Finds the first bang of a query, one byte at a time.
pub fn parse_bang_indexes_iter(bang: &str) -> (r: Option<Match>)
    ensures
        r == bang_span(bang.spec_bytes()),
{
    scan_bang_from(bang.as_bytes(), 0)
}

/// Finds the first bang of a query. Whole blocks of `CHUNK` bytes without a
/// `!` are passed over at once; the rest is scanned byte by byte. The result
/// is the same as that of [`parse_bang_indexes_iter`].
pub fn parse_bang_indexes(bang: &str) -> (r: Option<Match>)
    ensures
        r == bang_span(bang.spec_bytes()),
{
    let bytes = bang.as_bytes();
    let n = bytes.len();
    let mut pos: usize = 0;
    while n - pos >= CHUNK
        invariant
            pos <= n,
            n == bytes@.len(),
            bytes@ == bang.spec_bytes(),
            bang_from(bytes@, 0) == bang_from(bytes@, pos as int),
        decreases n - pos,
    {
        match first_in_chunk(bytes, pos, BANG) {
            None => {
                proof {
                    lemma_skip_without_bang(bytes@, pos as int, pos + CHUNK);
                }
                pos = pos + CHUNK;
            },
            Some(j) => {
                proof {
                    lemma_skip_without_bang(bytes@, pos as int, j as int);
                }
                if is_bang_start(bytes, j) {
                    let end = scan_word_end(bytes, j + 1);
                    assert(bang_from(bytes@, j as int) == Some(Match { start: j, end }));
                    return Some(Match::new(j, end));
                }
                pos = j + 1;
            },
        }
    }
    scan_bang_from(bytes, pos)
}

} // verus!
