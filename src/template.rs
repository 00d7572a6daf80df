use vstd::prelude::*;
use vstd::string::StringSliceAdditionalSpecFns;

use crate::scan::{absent_in, first_in_chunk, CHUNK};
use crate::span::Match;

verus! {

/// Length in bytes of the placeholder `{{{s}}}`.
pub const PLACEHOLDER_LEN: usize = 7;

/// How many placeholders a search reports at most; later ones are not
/// reported. Real templates hold one, seldom two.
pub const MAX_TEMPLATE_TERMS: usize = 2;

/// The byte `{`, which every placeholder starts with.
pub const OPEN_BRACE: u8 = 0x7b;

/// The placeholder `{{{s}}}` stands at byte `i`.
pub open spec fn placeholder_at(b: Seq<u8>, i: int) -> bool {
    &&& 0 <= i
    &&& i + 7 <= b.len()
    &&& b[i] == 0x7b && b[i + 1] == 0x7b && b[i + 2] == 0x7b
    &&& b[i + 3] == 0x73
    &&& b[i + 4] == 0x7d && b[i + 5] == 0x7d && b[i + 6] == 0x7d
}

/// Starts of the placeholders at or after `i`, left to right, none
/// overlapping the one before.
pub open spec fn placeholders_from(b: Seq<u8>, i: int) -> Seq<int>
    decreases b.len() - i,
{
    if i < 0 || i >= b.len() {
        Seq::empty()
    } else if placeholder_at(b, i) {
        seq![i] + placeholders_from(b, i + 7)
    } else {
        placeholders_from(b, i + 1)
    }
}

/// The span of the placeholder that starts at `p`.
pub open spec fn placeholder_span(p: int) -> Match {
    Match { start: p as usize, end: (p + 7) as usize }
}

/// The "no match" marker.
pub open spec fn no_match() -> Match {
    Match { start: 0, end: 0 }
}

/// Result slot `k` for the placeholder starts `occ`.
pub open spec fn slot(occ: Seq<int>, k: int) -> Match {
    if k < occ.len() {
        placeholder_span(occ[k])
    } else {
        no_match()
    }
}

/// Both result slots for the placeholders at or after `i`.
pub open spec fn slots_from(b: Seq<u8>, i: int) -> Seq<Match> {
    seq![slot(placeholders_from(b, i), 0), slot(placeholders_from(b, i), 1)]
}

/// A placeholder search of the template `b` reported `r`: nothing when it
/// holds no placeholder, else the first two placeholders, padded with the
/// "no match" marker.
pub open spec fn reports_placeholders(b: Seq<u8>, r: Option<[Match; 2]>) -> bool {
    match r {
        None => placeholders_from(b, 0).len() == 0,
        Some(a) => placeholders_from(b, 0).len() > 0 && a@ == slots_from(b, 0),
    }
}

/// The start of the first placeholder of a template, if it has one.
pub open spec fn first_placeholder(b: Seq<u8>) -> Option<int> {
    if placeholders_from(b, 0).len() > 0 {
        Some(placeholders_from(b, 0)[0])
    } else {
        None
    }
}

/// Slots `a` with their "no match" entries filled, in order, from `b`.
pub open spec fn merged(a: Seq<Match>, b: Seq<Match>) -> Seq<Match>
    decreases a.len(),
{
    if a.len() == 0 || b.len() == 0 {
        a
    } else if a[0] == no_match() {
        seq![b[0]] + merged(a.drop_first(), b.drop_first())
    } else {
        seq![a[0]] + merged(a.drop_first(), b)
    }
}

/// Where placeholders are found, and how they relate to the start of the
/// search: each stands where it is said to, starts at or after the search
/// start, and comes after the one before it.
pub proof fn lemma_placeholders_from_shape(b: Seq<u8>, i: int)
    requires
        0 <= i,
    ensures
        forall|k: int|
            0 <= k < placeholders_from(b, i).len() ==> #[trigger] placeholder_at(
                b,
                placeholders_from(b, i)[k],
            ) && i <= placeholders_from(b, i)[k],
        forall|k: int|
            0 < k < placeholders_from(b, i).len() ==> placeholders_from(b, i)[k - 1] + 7
                <= #[trigger] placeholders_from(b, i)[k],
    decreases b.len() - i,
{
    if i < b.len() {
        let occ = placeholders_from(b, i);
        if placeholder_at(b, i) {
            lemma_placeholders_from_shape(b, i + 7);
            let rest = placeholders_from(b, i + 7);
            assert(occ == seq![i] + rest);
            assert forall|k: int| 0 <= k < occ.len() implies #[trigger] placeholder_at(b, occ[k])
                && i <= occ[k] by {
                if k > 0 {
                    assert(occ[k] == rest[k - 1]);
                    assert(placeholder_at(b, rest[k - 1]));
                }
            }
            assert forall|k: int| 0 < k < occ.len() implies occ[k - 1] + 7 <= #[trigger] occ[k] by {
                assert(occ[k] == rest[k - 1]);
                assert(placeholder_at(b, rest[k - 1]));
                if k > 1 {
                    assert(occ[k - 1] == rest[k - 2]);
                }
            }
        } else {
            lemma_placeholders_from_shape(b, i + 1);
            let rest = placeholders_from(b, i + 1);
            assert(occ == rest);
            assert forall|k: int| 0 <= k < occ.len() implies #[trigger] placeholder_at(b, occ[k])
                && i <= occ[k] by {
                assert(placeholder_at(b, rest[k]));
            }
        }
    }
}

proof fn lemma_skip_without_brace(b: Seq<u8>, from: int, to: int)
    requires
        0 <= from <= to <= b.len(),
        absent_in(b, from, to, OPEN_BRACE),
    ensures
        placeholders_from(b, from) == placeholders_from(b, to),
    decreases to - from,
{
    if from < to {
        lemma_skip_without_brace(b, from + 1, to);
    }
}

proof fn lemma_merged_step(a: Seq<Match>, b: Seq<Match>, i: int, j: int)
    requires
        0 <= i < a.len(),
        0 <= j < b.len(),
    ensures
        merged(a.subrange(i, a.len() as int), b.subrange(j, b.len() as int)) == if a[i]
            == no_match() {
            seq![b[j]] + merged(
                a.subrange(i + 1, a.len() as int),
                b.subrange(j + 1, b.len() as int),
            )
        } else {
            seq![a[i]] + merged(a.subrange(i + 1, a.len() as int), b.subrange(j, b.len() as int))
        },
{
    assert(a.subrange(i, a.len() as int).drop_first() =~= a.subrange(i + 1, a.len() as int));
    assert(b.subrange(j, b.len() as int).drop_first() =~= b.subrange(j + 1, b.len() as int));
}

proof fn lemma_merged_pair(a: Seq<Match>, b: Seq<Match>)
    requires
        a.len() == 2,
        b.len() == 2,
    ensures
        merged(a, b) == if a[0] == no_match() {
            if a[1] == no_match() {
                seq![b[0], b[1]]
            } else {
                seq![b[0], a[1]]
            }
        } else {
            if a[1] == no_match() {
                seq![a[0], b[0]]
            } else {
                seq![a[0], a[1]]
            }
        },
{
    let a1 = a.drop_first();
    let a2 = a1.drop_first();
    assert(a2.len() == 0);
    assert(merged(a2, b) == a2);
    assert(merged(a2, b.drop_first()) == a2);
    assert(merged(a2, b.drop_first().drop_first()) == a2);
    assert(merged(a1, b) =~= if a[1] == no_match() {
        seq![b[0]]
    } else {
        seq![a[1]]
    });
    assert(merged(a1, b.drop_first()) =~= if a[1] == no_match() {
        seq![b[1]]
    } else {
        seq![a[1]]
    });
    if a[0] == no_match() {
        assert(merged(a, b) =~= seq![b[0]] + merged(a1, b.drop_first()));
    } else {
        assert(merged(a, b) =~= seq![a[0]] + merged(a1, b));
    }
}

/// Fills the "no match" slots of `a`, left to right, with the entries of `b`
/// in order, as far as `b` goes.
fn merge_slices(a: &mut [Match], b: &[Match])
    ensures
        final(a)@ == merged(old(a)@, b@),
{
    let a_len = a.len();
    let b_len = b.len();
    let mut a_idx: usize = 0;
    let mut b_idx: usize = 0;
    let ghost a0 = a@;
    proof {
        assert(a0.subrange(0, a_len as int) =~= a0);
        assert(b@.subrange(0, b_len as int) =~= b@);
        assert(a@.subrange(0, 0) =~= Seq::<Match>::empty());
    }
    while a_idx < a_len && b_idx < b_len
        invariant
            a_idx <= a_len,
            b_idx <= b_len,
            a_len == a@.len(),
            a_len == a0.len(),
            b_len == b@.len(),
            a@.subrange(a_idx as int, a_len as int) == a0.subrange(a_idx as int, a_len as int),
            a@.subrange(0, a_idx as int) + merged(
                a0.subrange(a_idx as int, a_len as int),
                b@.subrange(b_idx as int, b_len as int),
            ) == merged(a0, b@),
        decreases a_len - a_idx,
    {
        proof {
            lemma_merged_step(a0, b@, a_idx as int, b_idx as int);
            assert(a@[a_idx as int] == a0.subrange(a_idx as int, a_len as int)[0]);
        }
        let ghost before = a@;
        if a[a_idx] == Match::new(0, 0) {
            a[a_idx] = b[b_idx];
            b_idx = b_idx + 1;
        }
        proof {
            assert(a@.subrange(0, a_idx + 1) =~= before.subrange(0, a_idx as int) + seq![
                a@[a_idx as int],
            ]);
            assert(a@.subrange(a_idx + 1, a_len as int) =~= before.subrange(
                a_idx + 1,
                a_len as int,
            ));
            assert(before.subrange(a_idx + 1, a_len as int) =~= a0.subrange(
                a_idx as int,
                a_len as int,
            ).subrange(1, a_len - a_idx));
            assert(a0.subrange(a_idx as int, a_len as int).subrange(1, a_len - a_idx)
                =~= a0.subrange(a_idx + 1, a_len as int));
        }
        a_idx = a_idx + 1;
    }
    proof {
        let ra = a0.subrange(a_idx as int, a_len as int);
        let rb = b@.subrange(b_idx as int, b_len as int);
        assert(merged(ra, rb) == ra);
        assert(a@ =~= a@.subrange(0, a_idx as int) + a@.subrange(a_idx as int, a_len as int));
    }
}

/// Tests one position for the placeholder.
fn is_placeholder_at(bytes: &[u8], i: usize) -> (r: bool)
    requires
        i <= bytes@.len(),
    ensures
        r == placeholder_at(bytes@, i as int),
{
    let n = bytes.len();
    n - i >= PLACEHOLDER_LEN && bytes[i] == 0x7b && bytes[i + 1] == 0x7b && bytes[i + 2] == 0x7b
        && bytes[i + 3] == 0x73 && bytes[i + 4] == 0x7d && bytes[i + 5] == 0x7d && bytes[i + 6]
        == 0x7d
}

/// Byte-at-a-time search for the next placeholder at or after `from`.
fn next_placeholder(bytes: &[u8], from: usize) -> (r: Option<usize>)
    requires
        from <= bytes@.len(),
    ensures
        match r {
            None => placeholders_from(bytes@, from as int).len() == 0,
            Some(p) => from <= p && placeholder_at(bytes@, p as int) && placeholders_from(
                bytes@,
                from as int,
            ) == seq![p as int] + placeholders_from(bytes@, p + 7),
        },
{
    let n = bytes.len();
    let mut i = from;
    while i < n
        invariant
            from <= i <= n,
            n == bytes@.len(),
            placeholders_from(bytes@, from as int) == placeholders_from(bytes@, i as int),
        decreases n - i,
    {
        if is_placeholder_at(bytes, i) {
            return Some(i);
        }
        i = i + 1;
    }
    None
}

/// The result slots for the placeholders at or after `from`.
fn scan_placeholders_from(bytes: &[u8], from: usize) -> (r: [Match; 2])
    requires
        from <= bytes@.len(),
    ensures
        r@ == slots_from(bytes@, from as int),
{
    let n = bytes.len();
    let mut results = [Match::new(0, 0), Match::new(0, 0)];
    if let Some(p) = next_placeholder(bytes, from) {
        results[0] = Match::new(p, p + PLACEHOLDER_LEN);
        if let Some(q) = next_placeholder(bytes, p + PLACEHOLDER_LEN) {
            results[1] = Match::new(q, q + PLACEHOLDER_LEN);
        }
    }
    assert(results@ =~= slots_from(bytes@, from as int));
    results
}

/// Finds the placeholders of a template, one byte at a time.
pub fn iterative_parse_template_indexes(template: &str) -> (r: Option<[Match; 2]>)
    ensures
        reports_placeholders(template.spec_bytes(), r),
{
    let bytes = template.as_bytes();
    let n = bytes.len();
    let results = scan_placeholders_from(bytes, 0);
    proof {
        lemma_placeholders_from_shape(bytes@, 0);
        let occ = placeholders_from(bytes@, 0);
        if occ.len() > 0 {
            assert(placeholder_at(bytes@, occ[0]));
        }
    }
    if results[0].is_empty() {
        None
    } else {
        Some(results)
    }
}

/// Finds the placeholders of a template. Whole blocks of `CHUNK` bytes
/// without a `{` are passed over at once; what is left after the last full
/// block is scanned byte by byte and merged in after what the blocks gave.
/// The result is the same as that of [`iterative_parse_template_indexes`].
pub fn parse_template_indexes(template: &str) -> (r: Option<[Match; 2]>)
    ensures
        reports_placeholders(template.spec_bytes(), r),
{
    let bytes = template.as_bytes();
    let n = bytes.len();
    let mut results = [Match::new(0, 0), Match::new(0, 0)];
    let mut count: usize = 0;
    let mut pos: usize = 0;
    let ghost found: Seq<int> = Seq::empty();
    proof {
        lemma_placeholders_from_shape(bytes@, 0);
    }
    while count < MAX_TEMPLATE_TERMS && n - pos >= CHUNK
        invariant
            pos <= n,
            count <= MAX_TEMPLATE_TERMS,
            n == bytes@.len(),
            bytes@ == template.spec_bytes(),
            found.len() == count,
            placeholders_from(bytes@, 0) == found + placeholders_from(bytes@, pos as int),
            forall|k: int| 0 <= k < count ==> results@[k] == placeholder_span(found[k]),
            forall|k: int| count <= k < 2 ==> results@[k] == no_match(),
        decreases n - pos,
    {
        match first_in_chunk(bytes, pos, OPEN_BRACE) {
            None => {
                proof {
                    lemma_skip_without_brace(bytes@, pos as int, pos + CHUNK);
                }
                pos = pos + CHUNK;
            },
            Some(j) => {
                proof {
                    lemma_skip_without_brace(bytes@, pos as int, j as int);
                }
                if is_placeholder_at(bytes, j) {
                    results[count] = Match::new(j, j + PLACEHOLDER_LEN);
                    proof {
                        assert(placeholders_from(bytes@, j as int) == seq![j as int]
                            + placeholders_from(bytes@, j + 7));
                        assert(found + placeholders_from(bytes@, j as int) =~= found.push(j as int)
                            + placeholders_from(bytes@, j + 7));
                        found = found.push(j as int);
                    }
                    count = count + 1;
                    pos = j + PLACEHOLDER_LEN;
                } else {
                    pos = j + 1;
                }
            },
        }
    }
    let rest = scan_placeholders_from(bytes, pos);
    let ghost before = results@;
    merge_slices(&mut results, &rest);
    proof {
        let occ = placeholders_from(bytes@, 0);
        let tail = placeholders_from(bytes@, pos as int);
        lemma_merged_pair(before, rest@);
        if count == 0 {
            assert(occ =~= tail);
            assert(before[0] == no_match());
            assert(before[1] == no_match());
        } else if count == 1 {
            assert(occ[0] == found[0]);
            assert(placeholder_at(bytes@, occ[0]));
            assert(before[0] != no_match());
            assert(before[1] == no_match());
            assert(occ.len() == 1 + tail.len());
            if tail.len() > 0 {
                assert(occ[1] == tail[0]);
            }
            assert(slot(occ, 1) == slot(tail, 0));
        } else {
            assert(occ[0] == found[0]);
            assert(occ[1] == found[1]);
            assert(placeholder_at(bytes@, occ[0]));
            assert(placeholder_at(bytes@, occ[1]));
        }
        assert(results@ =~= slots_from(bytes@, 0));
        if occ.len() > 0 {
            assert(placeholder_at(bytes@, occ[0]));
        }
    }
    if results[0].is_empty() {
        None
    } else {
        Some(results)
    }
}

} // verus!
