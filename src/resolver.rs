use vstd::prelude::*;
use vstd::string::StringSliceAdditionalSpecFns;
use vstd::string::StringExecFns;
use vstd::utf8::{
    decode_utf8, encode_utf8, encode_utf8_valid_utf8, is_char_boundary_start_end_of_seq,
    valid_utf8,
};

use crate::bang::{bang_span, lemma_bang_span_shape, parse_bang_indexes, BANG, SPACE};
use crate::cache::{get_bang, get_redirects, Redirect, Registry};
use crate::encode::{encode_query, query_encoded};
use crate::span::Match;
use crate::template::{
    first_placeholder, lemma_placeholders_from_shape, parse_template_indexes, placeholder_at,
    placeholders_from,
};
use crate::text::{byte_slice, lemma_ascii_boundaries, lemma_encode_concat};

verus! {

/// The template `t` with `value` in place of its first placeholder; a
/// template without a placeholder, as it is. Later placeholders are left
/// as they stand.
pub open spec fn filled(t: Seq<u8>, value: Seq<char>) -> Seq<char> {
    match first_placeholder(t) {
        Some(p) => decode_utf8(t.subrange(0, p)) + value + decode_utf8(
            t.subrange(p + 7, t.len() as int),
        ),
        None => decode_utf8(t),
    }
}

/// The query `q` with its bang `m` taken out, and with it one space beside
/// it: the one after it, or, for a bang at the end, the one before it.
pub open spec fn remainder(q: Seq<u8>, m: Match) -> Seq<u8> {
    if m.end < q.len() {
        q.subrange(0, m.start as int) + q.subrange(m.end + 1, q.len() as int)
    } else if m.start > 0 {
        q.subrange(0, m.start - 1)
    } else {
        Seq::empty()
    }
}

/// The trigger of the bang `m`: its text after the `!`.
pub open spec fn trigger_of(q: Seq<u8>, m: Match) -> Seq<char> {
    decode_utf8(q.subrange(m.start + 1, m.end as int))
}

/// Where the query `q` is sent, given the default template and a registry
/// with these entries and this index. Without a bang the whole query goes
/// into the default template. With one, the rest of the query goes into the
/// template of the bang's entry, or into the default template when the
/// trigger is not registered.
pub open spec fn resolved(
    q: Seq<u8>,
    default: Seq<u8>,
    entries: Seq<Redirect>,
    index: Map<Seq<char>, usize>,
) -> Seq<char> {
    match bang_span(q) {
        None => filled(default, query_encoded(q)),
        Some(m) => {
            let rest = query_encoded(remainder(q, m));
            let t = trigger_of(q, m);
            if index.contains_key(t) {
                filled(encode_utf8(entries[index[t] as int].url_template@), rest)
            } else {
                filled(default, rest)
            }
        },
    }
}

/// Puts `value` in place of the first placeholder of `template`.
pub fn fill_template(template: &str, value: &str) -> (r: String)
    ensures
        r@ == filled(template.spec_bytes(), value@),
{
    let bytes = template.as_bytes();
    let n = bytes.len();
    match parse_template_indexes(template) {
        None => {
            proof {
                vstd::utf8::encode_utf8_decode_utf8(template@);
            }
            template.to_owned()
        },
        Some(slots) => {
            let first = slots[0];
            proof {
                let t = template.spec_bytes();
                encode_utf8_valid_utf8(template@);
                lemma_placeholders_from_shape(t, 0);
                let p = placeholders_from(t, 0)[0];
                assert(placeholder_at(t, p));
                lemma_ascii_boundaries(t, p);
                lemma_ascii_boundaries(t, p + 6);
                is_char_boundary_start_end_of_seq(t);
            }
            let head = byte_slice(template, 0, first.start);
            let tail = byte_slice(template, first.end, n);
            let mut out = String::new();
            out.append(head);
            out.append(value);
            out.append(tail);
            out
        },
    }
}

/// The query with its bang and one space beside it taken out.
fn remainder_text(query: &str, m: Match) -> (r: String)
    requires
        bang_span(query.spec_bytes()) == Some(m),
    ensures
        encode_utf8(r@) == remainder(query.spec_bytes(), m),
{
    let bytes = query.as_bytes();
    let n = bytes.len();
    let ghost q = query.spec_bytes();
    proof {
        lemma_bang_span_shape(q);
        encode_utf8_valid_utf8(query@);
        lemma_ascii_boundaries(q, m.start as int);
        is_char_boundary_start_end_of_seq(q);
    }
    if m.end < n {
        proof {
            lemma_ascii_boundaries(q, m.end as int);
        }
        let head = byte_slice(query, 0, m.start);
        let tail = byte_slice(query, m.end + 1, n);
        let mut out = String::new();
        out.append(head);
        out.append(tail);
        proof {
            lemma_encode_concat(head@, tail@);
            assert(out@ == head@ + tail@);
        }
        out
    } else if m.start > 0 {
        proof {
            lemma_ascii_boundaries(q, m.start - 1);
        }
        let head = byte_slice(query, 0, m.start - 1);
        let mut out = String::new();
        out.append(head);
        proof {
            assert(out@ == head@);
        }
        out
    } else {
        let out = String::new();
        proof {
            assert(encode_utf8(out@) =~= Seq::<u8>::empty());
        }
        out
    }
}

/// Resolves a query to the URL it is sent to: the bang's template, filled
/// with the encoded rest of the query, or the default template filled with
/// the encoded query.
pub fn resolve(query: &str, default_template: &str, registry: &Registry) -> (r: String)
    requires
        query@.len() > 0,
        registry.wf(),
    ensures
        r@ == resolved(
            query.spec_bytes(),
            default_template.spec_bytes(),
            registry.entries(),
            registry.index(),
        ),
{
    match parse_bang_indexes(query) {
        None => {
            let encoded = encode_query(query);
            fill_template(default_template, encoded.as_str())
        },
        Some(m) => {
            let n = query.as_bytes().len();
            let ghost q = query.spec_bytes();
            proof {
                lemma_bang_span_shape(q);
                encode_utf8_valid_utf8(query@);
                lemma_ascii_boundaries(q, m.start as int);
                is_char_boundary_start_end_of_seq(q);
                if m.end < q.len() {
                    lemma_ascii_boundaries(q, m.end as int);
                }
            }
            let trigger = byte_slice(query, m.start + 1, m.end);
            let rest = remainder_text(query, m);
            let encoded = encode_query(rest.as_str());
            match get_bang(registry, trigger) {
                Some(idx) => {
                    let entries = get_redirects(registry);
                    fill_template(entries[idx].url_template.as_str(), encoded.as_str())
                },
                None => fill_template(default_template, encoded.as_str()),
            }
        },
    }
}

/// A run of non-space bytes from `i` up to a space or the end at `j` ends
/// its word at `j`.
proof fn lemma_word_end_run(b: Seq<u8>, i: int, j: int)
    requires
        0 <= i <= j <= b.len(),
        forall|k: int| i <= k < j ==> b[k] != SPACE,
        j == b.len() || b[j] == SPACE,
    ensures
        crate::bang::word_end(b, i) == j,
    decreases j - i,
{
    if i < j {
        lemma_word_end_run(b, i + 1, j);
    }
}

/// A query without a `!` is percent-encoded whole (`/` kept) and put in
/// place of the default template's first placeholder, whatever the registry
/// holds.
pub proof fn lemma_plain_query_resolves_to_default(
    q: Seq<u8>,
    default: Seq<u8>,
    entries: Seq<Redirect>,
    index: Map<Seq<char>, usize>,
)
    requires
        q.len() <= usize::MAX,
        forall|i: int| 0 <= i < q.len() ==> q[i] != BANG,
    ensures
        resolved(q, default, entries, index) == filled(default, query_encoded(q)),
{
    lemma_bang_span_shape(q);
}

/// A query `!x rest` whose trigger `x` is registered resolves to that
/// entry's template with the encoded `rest` in place of its first
/// placeholder.
pub proof fn lemma_bang_query_resolves_to_entry(
    x: Seq<u8>,
    rest: Seq<u8>,
    default: Seq<u8>,
    entries: Seq<Redirect>,
    index: Map<Seq<char>, usize>,
)
    requires
        x.len() > 0,
        forall|i: int| 0 <= i < x.len() ==> x[i] != SPACE,
        x.len() + rest.len() + 2 <= usize::MAX,
        index.contains_key(decode_utf8(x)),
    ensures
        resolved(seq![BANG] + x + seq![SPACE] + rest, default, entries, index) == filled(
            encode_utf8(entries[index[decode_utf8(x)] as int].url_template@),
            query_encoded(rest),
        ),
{
    let q = seq![BANG] + x + seq![SPACE] + rest;
    let e: int = x.len() as int + 1;
    assert(q[0] == BANG);
    assert(q[1] == x[0]);
    assert(crate::bang::starts_bang(q, 0));
    assert forall|k: int| 1 <= k < e implies q[k] != SPACE by {
        assert(q[k] == x[k - 1]);
    }
    assert(q[e] == SPACE);
    lemma_word_end_run(q, 1, e);
    let m = Match { start: 0, end: e as usize };
    assert(bang_span(q) == Some(m));
    assert(remainder(q, m) =~= rest);
    assert(q.subrange(1, e) =~= x);
}

} // verus!
