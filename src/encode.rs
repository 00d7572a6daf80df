use vstd::prelude::*;
use vstd::string::{is_ascii, is_ascii_spec_bytes, StringSliceAdditionalSpecFns, StrSliceExecFns};
use vstd::string::StringExecFns;
use vstd::utf8::is_ascii_chars;

verus! {

/// Bytes that percent-encoding leaves as they are: ASCII alphanumerics and
/// `-`, `.`, `_`, `~`.
pub open spec fn is_unreserved(b: u8) -> bool {
    (0x30 <= b <= 0x39) || (0x41 <= b <= 0x5a) || (0x61 <= b <= 0x7a) || b == 0x2d || b == 0x2e
        || b == 0x5f || b == 0x7e
}

/// The upper-case hexadecimal digit for a value below sixteen.
pub open spec fn hex_digit(d: u8) -> char {
    if d < 10 {
        (0x30 + d) as u8 as char
    } else {
        (0x41 - 10 + d) as u8 as char
    }
}

/// How one byte is written by percent-encoding.
pub open spec fn percent_byte(b: u8) -> Seq<char> {
    if is_unreserved(b) {
        seq![b as char]
    } else {
        seq!['%', hex_digit(b / 16), hex_digit(b % 16)]
    }
}

/// Percent-encoding of a byte string, byte by byte.
pub open spec fn percent_encoded(bytes: Seq<u8>) -> Seq<char>
    decreases bytes.len(),
{
    if bytes.len() == 0 {
        Seq::empty()
    } else {
        percent_byte(bytes[0]) + percent_encoded(bytes.drop_first())
    }
}

/// Every `%2F` replaced by `/`, scanning left to right.
pub open spec fn slashes_restored(s: Seq<char>) -> Seq<char>
    decreases s.len(),
{
    if s.len() == 0 {
        Seq::empty()
    } else if s.len() >= 3 && s[0] == '%' && s[1] == '2' && s[2] == 'F' {
        seq!['/'] + slashes_restored(s.skip(3))
    } else {
        seq![s[0]] + slashes_restored(s.skip(1))
    }
}

/// How one byte of a query is written into a URL: percent-encoded, except
/// that `/` stays readable.
pub open spec fn query_byte(b: u8) -> Seq<char> {
    if b == 0x2f {
        seq!['/']
    } else {
        percent_byte(b)
    }
}

/// The encoded form of a whole query.
pub open spec fn query_encoded(bytes: Seq<u8>) -> Seq<char>
    decreases bytes.len(),
{
    if bytes.len() == 0 {
        Seq::empty()
    } else {
        query_byte(bytes[0]) + query_encoded(bytes.drop_first())
    }
}

/// Relies on `urlencoding::encode`: every byte of the UTF-8 text is kept if
/// unreserved and written as `%XY` (upper-case hex) otherwise.
#[verifier::external_body]
fn url_encode(s: &str) -> (r: String)
    ensures
        r@ == percent_encoded(s.spec_bytes()),
{
    urlencoding::encode(s).into_owned()
}

proof fn lemma_hex_digit(d: u8)
    requires
        d < 16,
    ensures
        hex_digit(d) != '%',
        ('0' <= hex_digit(d) <= '9') || ('A' <= hex_digit(d) <= 'F'),
        hex_digit(d) == '2' <==> d == 2,
        hex_digit(d) == 'F' <==> d == 15,
{
}

proof fn lemma_percent_encoded_ascii(bytes: Seq<u8>)
    ensures
        is_ascii_chars(percent_encoded(bytes)),
    decreases bytes.len(),
{
    if bytes.len() > 0 {
        let b = bytes[0];
        lemma_percent_encoded_ascii(bytes.drop_first());
        lemma_hex_digit(b / 16);
        lemma_hex_digit(b % 16);
        let p = percent_byte(b);
        let rest = percent_encoded(bytes.drop_first());
        assert(is_ascii_chars(p));
        assert forall|i| 0 <= i < (p + rest).len() implies '\0' <= #[trigger] (p + rest)[i]
            <= '\u{7f}' by {
            if i >= p.len() {
                assert((p + rest)[i] == rest[i - p.len()]);
            }
        }
    }
}

proof fn lemma_restored_plain(c: char, rest: Seq<char>)
    requires
        c != '%',
    ensures
        slashes_restored(seq![c] + rest) == seq![c] + slashes_restored(rest),
{
    let s = seq![c] + rest;
    assert(s.skip(1) =~= rest);
}

proof fn lemma_restored_byte(b: u8, rest: Seq<char>)
    ensures
        slashes_restored(percent_byte(b) + rest) == query_byte(b) + slashes_restored(rest),
{
    lemma_hex_digit(b / 16);
    lemma_hex_digit(b % 16);
    let h1 = hex_digit(b / 16);
    let h2 = hex_digit(b % 16);
    if is_unreserved(b) {
        lemma_restored_plain(b as char, rest);
    } else if b == 0x2f {
        let s = percent_byte(b) + rest;
        assert(s.skip(3) =~= rest);
    } else {
        let s = percent_byte(b) + rest;
        assert(b / 16 != 2 || b % 16 != 15);
        lemma_restored_plain(h2, rest);
        lemma_restored_plain(h1, seq![h2] + rest);
        assert(s.skip(1) =~= seq![h1] + (seq![h2] + rest));
        assert(percent_byte(b) =~= seq!['%'] + (seq![h1] + seq![h2]));
        assert(seq!['%'] + (seq![h1] + (seq![h2] + slashes_restored(rest))) =~= percent_byte(b)
            + slashes_restored(rest));
    }
}

proof fn lemma_restored_query(bytes: Seq<u8>)
    ensures
        slashes_restored(percent_encoded(bytes)) == query_encoded(bytes),
    decreases bytes.len(),
{
    if bytes.len() > 0 {
        lemma_restored_query(bytes.drop_first());
        lemma_restored_byte(bytes[0], percent_encoded(bytes.drop_first()));
    }
}

proof fn lemma_restored_step(s: Seq<char>, i: int)
    requires
        0 <= i < s.len(),
        !(i + 3 <= s.len() && s[i] == '%' && s[i + 1] == '2' && s[i + 2] == 'F'),
    ensures
        slashes_restored(s.subrange(i, s.len() as int)) == seq![s[i]] + slashes_restored(
            s.subrange(i + 1, s.len() as int),
        ),
{
    let t = s.subrange(i, s.len() as int);
    assert(t.skip(1) =~= s.subrange(i + 1, s.len() as int));
}

proof fn lemma_restored_match(s: Seq<char>, i: int)
    requires
        0 <= i,
        i + 3 <= s.len(),
        s[i] == '%' && s[i + 1] == '2' && s[i + 2] == 'F',
    ensures
        slashes_restored(s.subrange(i, s.len() as int)) == seq!['/'] + slashes_restored(
            s.subrange(i + 3, s.len() as int),
        ),
{
    let t = s.subrange(i, s.len() as int);
    assert(t.skip(3) =~= s.subrange(i + 3, s.len() as int));
}

/// Copies an ASCII text with every `%2F` turned back into `/`.
fn restore_slashes(e: &str) -> (r: String)
    requires
        is_ascii(e),
    ensures
        r@ == slashes_restored(e@),
{
    broadcast use is_ascii_spec_bytes;

    let bytes = e.as_bytes();
    let n = bytes.len();
    assert(bytes@.len() == e@.len());
    let mut out = String::new();
    let mut last: usize = 0;
    let mut i: usize = 0;
    proof {
        reveal_strlit("/");
        assert(e@.subrange(0, n as int) =~= e@);
    }
    while i < n
        invariant
            last <= i <= n,
            n == e@.len(),
            is_ascii(e),
            bytes@.len() == n,
            forall|k| 0 <= k < n ==> #[trigger] bytes@[k] == e@[k] as u8,
            forall|k| 0 <= k < n ==> (#[trigger] e@[k] as nat) < 128,
            "/"@ == seq!['/'],
            out@ + slashes_restored(e@.subrange(last as int, n as int)) == slashes_restored(e@),
            slashes_restored(e@.subrange(last as int, n as int)) == e@.subrange(
                last as int,
                i as int,
            ) + slashes_restored(e@.subrange(i as int, n as int)),
        decreases n - i,
    {
        if n - i >= 3 && bytes[i] == 0x25 && bytes[i + 1] == 0x32 && bytes[i + 2] == 0x46 {
            proof {
                assert(e@[i as int] == '%');
                assert(e@[i + 1] == '2');
                assert(e@[i + 2] == 'F');
                lemma_restored_match(e@, i as int);
            }
            let piece = e.substring_ascii(last, i);
            let ghost before = out@;
            out.append(piece);
            out.append("/");
            proof {
                assert(out@ == before + e@.subrange(last as int, i as int) + seq!['/']);
                assert(e@.subrange(i + 3, i + 3) =~= Seq::<char>::empty());
                assert(out@ + slashes_restored(e@.subrange(i + 3, n as int)) =~= before
                    + (e@.subrange(last as int, i as int) + (seq!['/'] + slashes_restored(
                    e@.subrange(i + 3, n as int),
                ))));
            }
            i = i + 3;
            last = i;
        } else {
            proof {
                let c = e@[i as int];
                if i + 3 <= n && c == '%' && e@[i + 1] == '2' && e@[i + 2] == 'F' {
                    assert(bytes@[i as int] == 0x25);
                    assert(bytes@[i + 1] == 0x32);
                    assert(bytes@[i + 2] == 0x46);
                }
                lemma_restored_step(e@, i as int);
                assert(e@.subrange(last as int, i + 1) =~= e@.subrange(last as int, i as int)
                    + seq![c]);
            }
            i = i + 1;
        }
    }
    let tail = e.substring_ascii(last, n);
    out.append(tail);
    proof {
        assert(e@.subrange(n as int, n as int) =~= Seq::<char>::empty());
        assert(e@.subrange(last as int, n as int) + Seq::<char>::empty() =~= e@.subrange(
            last as int,
            n as int,
        ));
    }
    out
}

/// Percent-encodes a query for a URL, leaving `/` readable: the result of
/// `urlencoding::encode` with each `%2F` written back as `/`.
pub fn encode_query(q: &str) -> (r: String)
    ensures
        r@ == query_encoded(q.spec_bytes()),
{
    let e = url_encode(q);
    proof {
        lemma_percent_encoded_ascii(q.spec_bytes());
        lemma_restored_query(q.spec_bytes());
    }
    restore_slashes(e.as_str())
}

} // verus!
