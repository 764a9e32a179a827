//! Canonical byte encoding of records: identity fields in rule order,
//! content fields in lexicographic order, each value with a type tag.

use unicode_normalization::UnicodeNormalization;
use std::fmt::Write;
use vstd::prelude::*;
use vstd::utf8::{
    decode_utf8, encode_scalar, encode_utf8, encode_utf8_decode_utf8, is_char_boundary,
};

use crate::error::{CoreError, CoreResult, ErrorView};
use crate::model::CanonSpec;
use crate::identity::{identity_field_names, IdentityRule};
use crate::order::{
    byte_views, lemma_utf8_leq_total, seq_leq, sort_byte_strings, sort_strings, utf8_leq,
};
use crate::record::{CanonValue, Record};
use crate::text::{
    char_pos, copy_string, find_char, is_digit, is_ws, lemma_char_pos, push_slice, starts_with,
    str_eq, string_views, strip_prefix_str, trim, trim_end, trim_start, trim_str,
};

verus! {

pub const TAG_NULL: u8 = 0xA0;
pub const TAG_BOOL: u8 = 0xA1;
pub const TAG_STRING: u8 = 0xA2;
pub const TAG_DECIMAL: u8 = 0xA3;
pub const TAG_TIMESTAMP: u8 = 0xA4;
pub const TAG_ARRAY: u8 = 0xA5;
pub const TAG_FIELD: u8 = 0xF0;

/// The four big-endian bytes of a 32-bit number.
pub open spec fn be32(n: u32) -> Seq<u8> {
    seq![
        (n / 0x100_0000) as u8,
        ((n / 0x1_0000) % 0x100) as u8,
        ((n / 0x100) % 0x100) as u8,
        (n % 0x100) as u8,
    ]
}

/// The big-endian bytes of a 32-bit number.
pub fn u32_be(n: u32) -> (r: [u8; 4])
    ensures
        r@ == be32(n),
{
    let b0 = (n >> 24) as u8;
    let b1 = ((n >> 16) & 0xff) as u8;
    let b2 = ((n >> 8) & 0xff) as u8;
    let b3 = (n & 0xff) as u8;
    assert(b0 == (n / 0x100_0000) as u8) by (bit_vector)
        requires
            b0 == (n >> 24) as u8,
    ;
    assert(b1 == ((n / 0x1_0000) % 0x100) as u8) by (bit_vector)
        requires
            b1 == ((n >> 16) & 0xff) as u8,
    ;
    assert(b2 == ((n / 0x100) % 0x100) as u8) by (bit_vector)
        requires
            b2 == ((n >> 8) & 0xff) as u8,
    ;
    assert(b3 == (n % 0x100) as u8) by (bit_vector)
        requires
            b3 == (n & 0xff) as u8,
    ;
    let r = [b0, b1, b2, b3];
    assert(r@ =~= be32(n));
    r
}

/// A tagged, length-prefixed chunk: the tag, the 32-bit big-endian length of
/// the data (taken modulo 2^32, as the length is cast), then the data.
pub open spec fn chunk(tag: u8, data: Seq<u8>) -> Seq<u8> {
    seq![tag] + be32(data.len() as u32) + data
}

/// Appends a chunk to `out`.
fn push_chunk(out: &mut Vec<u8>, tag: u8, data: &[u8])
    ensures
        final(out)@ == old(out)@ + chunk(tag, data@),
{
    out.push(tag);
    let len = u32_be(data.len() as u32);
    push_slice(out, &len);
    push_slice(out, data);
    assert(final(out)@ =~= old(out)@ + chunk(tag, data@));
}

/// What Unicode normalization form C gives for a string.
pub uninterp spec fn nfc(s: Seq<char>) -> Seq<char>;

/// `UnicodeNormalization::nfc` of unicode-normalization, collected into a
/// string: the NFC form of `s`, whatever it is, as a function of `s` alone.
#[verifier::external_body]
fn nfc_string(s: &str) -> (r: String)
    ensures
        r@ == nfc(s@),
{
    s.nfc().collect::<String>()
}

/// The strftime format of a canonical timestamp: UTC with microseconds.
pub const UTC_MICROS_FORMAT: &'static str = "%Y-%m-%dT%H:%M:%S%.6fZ";

/// What parsing an RFC 3339 timestamp and writing the instant in UTC with a
/// strftime format gives: the text, or the error's message.
pub uninterp spec fn rfc3339_utc_format(s: Seq<char>, fmt: Seq<char>) -> Result<Seq<char>, Seq<char>>;

/// `chrono::DateTime::parse_from_rfc3339`, the instant converted to UTC
/// (`with_timezone(&Utc)`) and written with `format(fmt)`; on a parse error,
/// or a format that chrono cannot write, the error's message. The contract
/// only names the outcome as a function of the two texts.
#[verifier::external_body]
fn parse_rfc3339_utc_format(ts: &str, fmt: &str) -> (r: Result<String, String>)
    ensures
        rfc3339_utc_format(ts@, fmt@) == (match r {
            Ok(t) => Ok::<Seq<char>, Seq<char>>(t@),
            Err(m) => Err::<Seq<char>, Seq<char>>(m@),
        }),
{
    match chrono::DateTime::parse_from_rfc3339(ts) {
        Err(e) => Err(e.to_string()),
        Ok(t) => {
            let mut text = String::new();
            match write!(text, "{}", t.with_timezone(&chrono::Utc).format(fmt)) {
                Ok(()) => Ok(text),
                Err(e) => Err(e.to_string()),
            }
        },
    }
}

// ---------------------------------------------------------------------------
// Decimals
// ---------------------------------------------------------------------------

/// The part of a decimal literal before its first `.`.
pub open spec fn decimal_whole(t: Seq<char>) -> Seq<char> {
    t.take(char_pos(t, '.'))
}

/// The part of a decimal literal after its first `.` (empty without one).
pub open spec fn decimal_frac(t: Seq<char>) -> Seq<char> {
    if char_pos(t, '.') < t.len() {
        t.skip(char_pos(t, '.') + 1)
    } else {
        Seq::empty()
    }
}

/// The integer part is non-empty and made of ASCII digits and `-`.
pub open spec fn whole_ok(w: Seq<char>) -> bool {
    w.len() > 0 && forall|i: int| 0 <= i < w.len() ==> is_digit(#[trigger] w[i]) || w[i] == '-'
}

/// A literal that the decimal encoding accepts (after trimming white space).
pub open spec fn decimal_ok(s: Seq<char>) -> bool {
    trim(s).len() > 0 && whole_ok(decimal_whole(trim(s)))
}

/// The fraction cut or padded with `0` to `scale` bytes of UTF-8.
pub open spec fn scaled_frac(f: Seq<char>, scale: nat) -> Seq<char> {
    let b = encode_utf8(f);
    if b.len() <= scale {
        f + Seq::new((scale - b.len()) as nat, |i: int| '0')
    } else {
        decode_utf8(b.take(scale as int))
    }
}

/// Cutting the fraction to `scale` bytes would split a character (the cut
/// panics there).
pub open spec fn decimal_cut_splits_char(s: Seq<char>, scale: u32) -> bool {
    let b = encode_utf8(decimal_frac(trim(s)));
    decimal_ok(s) && b.len() > scale && !is_char_boundary(b, scale as int)
}

/// The canonical text of a decimal literal at a scale: the trimmed integer
/// part, then (for a positive scale) `.` and the fraction cut or padded to
/// `scale` bytes; a literal that is empty or whose integer part is not made
/// of digits and `-` is an invalid decimal.
pub open spec fn spec_canonical_decimal(s: Seq<char>, scale: u32) -> Result<Seq<char>, ErrorView> {
    let t = trim(s);
    if !decimal_ok(s) {
        Err(ErrorView::InvalidDecimal(t))
    } else if scale > 0 {
        Ok(decimal_whole(t) + seq!['.'] + scaled_frac(decimal_frac(t), scale as nat))
    } else {
        Ok(decimal_whole(t))
    }
}

/// Canonical text of a decimal literal at a scale.
pub fn canonical_decimal(s: &str, scale: u32) -> (r: CoreResult<String>)
    requires
        !decimal_cut_splits_char(s@, scale),
    ensures
        match spec_canonical_decimal(s@, scale) {
            Ok(t) => r matches Ok(v) && v@ == t,
            Err(e) => r matches Err(x) && x@ == e,
        },
{
    let t = trim_str(s);
    let n = t.unicode_len();
    if n == 0 {
        return Err(CoreError::InvalidDecimal(copy_string(t)));
    }
    let p = find_char(t, '.');
    let whole = t.substring_char(0, p);
    let frac = if p < n {
        t.substring_char(p + 1, n)
    } else {
        ""
    };
    proof {
        reveal_strlit("");
        assert(whole@ =~= decimal_whole(t@));
        assert(frac@ =~= decimal_frac(t@));
    }
    let wn = whole.unicode_len();
    if wn == 0 {
        return Err(CoreError::InvalidDecimal(copy_string(t)));
    }
    let mut i: usize = 0;
    while i < wn
        invariant
            0 <= i <= wn,
            wn == whole@.len(),
            t@ == trim(s@),
            t@.len() > 0,
            whole@ == decimal_whole(t@),
            forall|j: int| 0 <= j < i ==> is_digit(#[trigger] whole@[j]) || whole@[j] == '-',
        decreases wn - i,
    {
        let c = whole.get_char(i);
        if !(('0' <= c && c <= '9') || c == '-') {
            assert(!(is_digit(whole@[i as int]) || whole@[i as int] == '-'));
            assert(!whole_ok(whole@));
            return Err(CoreError::InvalidDecimal(copy_string(t)));
        }
        i = i + 1;
    }
    let mut out = String::from_str(whole);
    if scale > 0 {
        proof {
            reveal_strlit(".");
            reveal_strlit("0");
        }
        out.append(".");
        let sc = scale as usize;
        let fb = frac.as_bytes().len();
        if fb <= sc {
            out.append(frac);
            let ghost base = out@;
            let mut k: usize = fb;
            while k < sc
                invariant
                    fb <= k <= sc,
                    "0"@ == seq!['0'],
                    out@ == base + Seq::new((k - fb) as nat, |j: int| '0'),
                decreases sc - k,
            {
                out.append("0");
                assert(out@ =~= base + Seq::new((k + 1 - fb) as nat, |j: int| '0'));
                k = k + 1;
            }
            assert(fb == encode_utf8(frac@).len());
            assert(base =~= decimal_whole(t@) + seq!['.'] + frac@);
            assert(out@ =~= decimal_whole(t@) + seq!['.'] + scaled_frac(frac@, scale as nat));
        } else {
            let (head, _rest) = frac.split_at(sc);
            proof {
                encode_utf8_decode_utf8(head@);
                assert(head@ == decode_utf8(encode_utf8(frac@).take(sc as int)));
            }
            out.append(head);
            assert(out@ =~= decimal_whole(t@) + seq!['.'] + scaled_frac(frac@, scale as nat));
        }
    }
    Ok(out)
}

// ---------------------------------------------------------------------------
// Values
// ---------------------------------------------------------------------------

/// What encoding gives: the bytes, an error, or a panic (a decimal cut
/// inside a character).
pub enum Outcome<T> {
    Done(T),
    Fails(ErrorView),
    Panics,
}

/// A string value: its NFC form as UTF-8, in a string chunk.
pub open spec fn spec_encode_string(s: Seq<char>) -> Seq<u8> {
    chunk(TAG_STRING, encode_utf8(nfc(s)))
}

/// A decimal value: its canonical text as UTF-8, in a decimal chunk.
pub open spec fn spec_encode_decimal(s: Seq<char>, scale: u32) -> Outcome<Seq<u8>> {
    if decimal_cut_splits_char(s, scale) {
        Outcome::Panics
    } else {
        match spec_canonical_decimal(s, scale) {
            Ok(t) => Outcome::Done(chunk(TAG_DECIMAL, encode_utf8(t))),
            Err(e) => Outcome::Fails(e),
        }
    }
}

/// The text without a leading `ts:`.
pub open spec fn strip_ts(s: Seq<char>) -> Seq<char> {
    if starts_with(s, "ts:"@) {
        s.skip(3)
    } else {
        s
    }
}

/// The text without a leading `dec:`.
pub open spec fn strip_dec(s: Seq<char>) -> Seq<char> {
    if starts_with(s, "dec:"@) {
        s.skip(4)
    } else {
        s
    }
}

/// A timestamp normalized to UTC with microseconds; a text that does not
/// parse as RFC 3339, or a precision other than `micros`, is an error.
pub open spec fn spec_normalize_timestamp(t: Seq<char>, precision: Seq<char>) -> Result<
    Seq<char>,
    ErrorView,
> {
    match rfc3339_utc_format(strip_ts(t), UTC_MICROS_FORMAT@) {
        Err(m) => Err(ErrorView::Other("invalid timestamp: "@ + m)),
        Ok(u) => if precision == "micros"@ {
            Ok(u)
        } else {
            Err(ErrorView::Other("unsupported timestamp_precision: "@ + precision))
        },
    }
}

/// The canonical bytes of a value: a tag byte, then its payload; the items
/// of an array follow their count in order, or sorted by their bytes when
/// the spec treats arrays as sets. The first item that fails or panics makes
/// the array fail or panic.
pub open spec fn spec_encode_value(v: CanonValue, c: CanonSpec) -> Outcome<Seq<u8>>
    decreases v,
{
    match v {
        CanonValue::Null => Outcome::Done(seq![TAG_NULL]),
        CanonValue::Bool(b) => Outcome::Done(seq![TAG_BOOL, if b { 1u8 } else { 0u8 }]),
        CanonValue::String(s) => if starts_with(s@, "ts:"@) {
            Outcome::Done(chunk(TAG_TIMESTAMP, encode_utf8(s@.skip(3))))
        } else if starts_with(s@, "dec:"@) {
            spec_encode_decimal(s@.skip(4), c.decimal_scale)
        } else {
            Outcome::Done(spec_encode_string(s@))
        },
        CanonValue::Decimal(d) => spec_encode_decimal(strip_dec(d@), c.decimal_scale),
        CanonValue::Timestamp(t) => match spec_normalize_timestamp(t@, c.timestamp_precision@) {
            Ok(u) => Outcome::Done(chunk(TAG_TIMESTAMP, encode_utf8(u))),
            Err(e) => Outcome::Fails(e),
        },
        CanonValue::Array(items) => {
            proof {
                assert(decreases_to!(v => items@));
            }
            match spec_encode_items(items@, c) {
                Outcome::Done(parts) => Outcome::Done(
                    seq![TAG_ARRAY] + be32(items@.len() as u32) + (if c.array_as_set {
                        parts.sort_by(seq_leq())
                    } else {
                        parts
                    }).flatten(),
                ),
                Outcome::Fails(e) => Outcome::Fails(e),
                Outcome::Panics => Outcome::Panics,
            }
        },
    }
}

/// The encodings of items in order, or the outcome of the first item that
/// fails or panics.
pub open spec fn spec_encode_items(items: Seq<CanonValue>, c: CanonSpec) -> Outcome<Seq<Seq<u8>>>
    decreases items,
{
    if items.len() == 0 {
        Outcome::Done(Seq::empty())
    } else {
        proof {
            assert(decreases_to!(items => items.subrange(0, items.len() - 1)));
            assert(decreases_to!(items => items[items.len() - 1]));
        }
        match spec_encode_items(items.subrange(0, items.len() - 1), c) {
            Outcome::Done(p) => match spec_encode_value(items[items.len() - 1], c) {
                Outcome::Done(b) => Outcome::Done(p.push(b)),
                Outcome::Fails(e) => Outcome::Fails(e),
                Outcome::Panics => Outcome::Panics,
            },
            Outcome::Fails(e) => Outcome::Fails(e),
            Outcome::Panics => Outcome::Panics,
        }
    }
}

proof fn lemma_items_step(items: Seq<CanonValue>, c: CanonSpec, i: int)
    requires
        0 <= i < items.len(),
    ensures
        spec_encode_items(items.take(i + 1), c) == (match spec_encode_items(items.take(i), c) {
            Outcome::Done(p) => match spec_encode_value(items[i], c) {
                Outcome::Done(b) => Outcome::Done(p.push(b)),
                Outcome::Fails(e) => Outcome::Fails(e),
                Outcome::Panics => Outcome::Panics,
            },
            Outcome::Fails(e) => Outcome::Fails(e),
            Outcome::Panics => Outcome::Panics,
        }),
{
    let t = items.take(i + 1);
    assert(t.subrange(0, t.len() - 1) =~= items.take(i));
    assert(t[t.len() - 1] == items[i]);
}

proof fn lemma_items_stop_prefix(items: Seq<CanonValue>, c: CanonSpec, k: int)
    requires
        0 <= k <= items.len(),
        !(spec_encode_items(items.take(k), c) is Done),
    ensures
        spec_encode_items(items, c) == spec_encode_items(items.take(k), c),
    decreases items.len() - k,
{
    if k < items.len() {
        lemma_items_step(items, c, k);
        lemma_items_stop_prefix(items, c, k + 1);
    } else {
        assert(items.take(k) =~= items);
    }
}

/// Appends the string chunk of the NFC form of `s`.
pub fn encode_string(out: &mut Vec<u8>, s: &str) -> (r: CoreResult<()>)
    ensures
        r is Ok,
        final(out)@ == old(out)@ + spec_encode_string(s@),
{
    let nfc = nfc_string(s);
    push_chunk(out, TAG_STRING, nfc.as_str().as_bytes());
    Ok(())
}

/// Appends the decimal chunk of the canonical text of `s`.
pub fn encode_decimal(out: &mut Vec<u8>, s: &str, scale: u32) -> (r: CoreResult<()>)
    requires
        !decimal_cut_splits_char(s@, scale),
    ensures
        spec_encode_decimal(s@, scale) matches Outcome::Done(b) ==> r is Ok && final(out)@ == old(
            out,
        )@ + b,
        spec_encode_decimal(s@, scale) matches Outcome::Fails(e) ==> r matches Err(x) && x@ == e,
{
    match canonical_decimal(s, scale) {
        Ok(canonical) => {
            push_chunk(out, TAG_DECIMAL, canonical.as_str().as_bytes());
            Ok(())
        },
        Err(e) => Err(e),
    }
}

/// A timestamp normalized to UTC with microsecond precision.
pub fn normalize_timestamp(ts: &str, spec: &CanonSpec) -> (r: CoreResult<String>)
    ensures
        match spec_normalize_timestamp(ts@, spec.timestamp_precision@) {
            Ok(u) => r matches Ok(v) && v@ == u,
            Err(e) => r matches Err(x) && x@ == e,
        },
{
    proof {
        reveal_strlit("ts:");
        reveal_strlit("micros");
    }
    let t = match strip_prefix_str(ts, "ts:") {
        Some(rest) => rest,
        None => ts,
    };
    assert(t@ == strip_ts(ts@));
    match parse_rfc3339_utc_format(t, UTC_MICROS_FORMAT) {
        Err(m) => {
            let mut msg = String::from_str("invalid timestamp: ");
            msg.append(m.as_str());
            Err(CoreError::Other(msg))
        },
        Ok(u) => {
            if str_eq(spec.timestamp_precision.as_str(), "micros") {
                Ok(u)
            } else {
                let mut msg = String::from_str("unsupported timestamp_precision: ");
                msg.append(spec.timestamp_precision.as_str());
                Err(CoreError::Other(msg))
            }
        },
    }
}

/// Appends the canonical bytes of a value.
pub fn encode_value(out: &mut Vec<u8>, value: &CanonValue, spec: &CanonSpec) -> (r: CoreResult<()>)
    requires
        !(spec_encode_value(*value, *spec) is Panics),
    ensures
        spec_encode_value(*value, *spec) matches Outcome::Done(b) ==> r is Ok && final(out)@ == old(
            out,
        )@ + b,
        spec_encode_value(*value, *spec) matches Outcome::Fails(e) ==> r matches Err(x) && x@ == e,
    decreases value,
{
    proof {
        reveal_strlit("ts:");
        reveal_strlit("dec:");
    }
    match value {
        CanonValue::Null => {
            out.push(TAG_NULL);
            assert(final(out)@ =~= old(out)@ + seq![TAG_NULL]);
            Ok(())
        },
        CanonValue::Bool(b) => {
            out.push(TAG_BOOL);
            out.push(if *b { 1u8 } else { 0u8 });
            assert(final(out)@ =~= old(out)@ + seq![TAG_BOOL, if *b { 1u8 } else { 0u8 }]);
            Ok(())
        },
        CanonValue::String(s) => {
            if let Some(ts) = strip_prefix_str(s.as_str(), "ts:") {
                push_chunk(out, TAG_TIMESTAMP, ts.as_bytes());
                Ok(())
            } else if let Some(dec) = strip_prefix_str(s.as_str(), "dec:") {
                encode_decimal(out, dec, spec.decimal_scale)
            } else {
                encode_string(out, s.as_str())
            }
        },
        CanonValue::Decimal(d) => {
            let lit = match strip_prefix_str(d.as_str(), "dec:") {
                Some(rest) => rest,
                None => d.as_str(),
            };
            assert(lit@ == strip_dec(d@));
            encode_decimal(out, lit, spec.decimal_scale)
        },
        CanonValue::Timestamp(t) => {
            match normalize_timestamp(t.as_str(), spec) {
                Ok(utc) => {
                    push_chunk(out, TAG_TIMESTAMP, utc.as_str().as_bytes());
                    Ok(())
                },
                Err(e) => Err(e),
            }
        },
        CanonValue::Array(items) => {
            let ghost c = *spec;
            let ghost iv = items@;
            assert(decreases_to!(value => items));
            out.push(TAG_ARRAY);
            let count = u32_be(items.len() as u32);
            push_slice(out, &count);
            let ghost head = old(out)@ + seq![TAG_ARRAY] + be32(iv.len() as u32);
            assert(out@ =~= head);
            assert(iv.take(0) =~= Seq::<CanonValue>::empty());
            assert(!(spec_encode_items(iv, c) is Panics));
            if spec.array_as_set {
                let mut encoded: Vec<Vec<u8>> = Vec::new();
                assert(byte_views(encoded@) =~= Seq::<Seq<u8>>::empty());
                let mut i: usize = 0;
                while i < items.len()
                    invariant
                        0 <= i <= iv.len(),
                        iv == items@,
                        c == *spec,
                        decreases_to!(value => items),
                        *value == CanonValue::Array(*items),
                        !(spec_encode_items(iv, c) is Panics),
                        spec_encode_items(iv.take(i as int), c) == Outcome::Done(
                            byte_views(encoded@),
                        ),
                    decreases iv.len() - i,
                {
                    proof {
                        lemma_items_step(iv, c, i as int);
                        if spec_encode_value(iv[i as int], c) is Panics {
                            lemma_items_stop_prefix(iv, c, i + 1);
                        }
                        assert(decreases_to!(items => items@));
                        assert(decreases_to!(items@ => items@[i as int]));
                    }
                    let mut buf: Vec<u8> = Vec::new();
                    match encode_value(&mut buf, &items[i], spec) {
                        Ok(()) => {},
                        Err(e) => {
                            proof {
                                lemma_items_stop_prefix(iv, c, i + 1);
                            }
                            return Err(e);
                        },
                    }
                    assert(buf@ =~= Seq::<u8>::empty() + buf@);
                    let ghost before = byte_views(encoded@);
                    encoded.push(buf);
                    assert(byte_views(encoded@) =~= before.push(buf@));
                    i = i + 1;
                }
                assert(iv.take(iv.len() as int) =~= iv);
                let sorted = sort_byte_strings(encoded);
                let ghost parts = byte_views(sorted@);
                let mut j: usize = 0;
                while j < sorted.len()
                    invariant
                        0 <= j <= sorted@.len(),
                        parts == byte_views(sorted@),
                        out@ == head + parts.take(j as int).flatten(),
                    decreases sorted@.len() - j,
                {
                    proof {
                        assert(parts.take(j + 1) =~= parts.take(j as int).push(parts[j as int]));
                        parts.take(j as int).lemma_flatten_push(parts[j as int]);
                    }
                    push_slice(out, sorted[j].as_slice());
                    assert(out@ =~= head + parts.take(j + 1).flatten());
                    j = j + 1;
                }
                assert(parts.take(parts.len() as int) =~= parts);
                assert(final(out)@ =~= head + parts.flatten());
                Ok(())
            } else {
                let mut i: usize = 0;
                let ghost mut parts: Seq<Seq<u8>> = Seq::empty();
                while i < items.len()
                    invariant
                        0 <= i <= iv.len(),
                        iv == items@,
                        c == *spec,
                        decreases_to!(value => items),
                        *value == CanonValue::Array(*items),
                        !(spec_encode_items(iv, c) is Panics),
                        spec_encode_items(iv.take(i as int), c) == Outcome::Done(parts),
                        out@ == head + parts.flatten(),
                    decreases iv.len() - i,
                {
                    proof {
                        lemma_items_step(iv, c, i as int);
                        if spec_encode_value(iv[i as int], c) is Panics {
                            lemma_items_stop_prefix(iv, c, i + 1);
                        }
                        assert(decreases_to!(items => items@));
                        assert(decreases_to!(items@ => items@[i as int]));
                    }
                    let ghost before = out@;
                    match encode_value(out, &items[i], spec) {
                        Ok(()) => {},
                        Err(e) => {
                            proof {
                                lemma_items_stop_prefix(iv, c, i + 1);
                            }
                            return Err(e);
                        },
                    }
                    proof {
                        let b = spec_encode_value(iv[i as int], c)->Done_0;
                        assert(out@ == before + b);
                        parts.lemma_flatten_push(b);
                        parts = parts.push(b);
                    }
                    i = i + 1;
                }
                assert(iv.take(iv.len() as int) =~= iv);
                Ok(())
            }
        },
    }
}

// ---------------------------------------------------------------------------
// Records
// ---------------------------------------------------------------------------

/// The header of a field: its name as UTF-8 in a field chunk.
pub open spec fn field_header(name: Seq<char>) -> Seq<u8> {
    chunk(TAG_FIELD, encode_utf8(name))
}

/// The fields of a record in the given order, each as its header and its
/// value's bytes; the first field the record lacks, or the first value that
/// fails or panics, decides the outcome.
pub open spec fn spec_canon_fields(
    rec: Map<Seq<char>, CanonValue>,
    fields: Seq<Seq<char>>,
    c: CanonSpec,
) -> Outcome<Seq<u8>>
    decreases fields.len(),
{
    if fields.len() == 0 {
        Outcome::Done(Seq::empty())
    } else {
        match spec_canon_fields(rec, fields.drop_last(), c) {
            Outcome::Done(p) => {
                let name = fields.last();
                if !rec.dom().contains(name) {
                    Outcome::Fails(ErrorView::MissingIdentityField(name))
                } else {
                    match spec_encode_value(rec[name], c) {
                        Outcome::Done(b) => Outcome::Done(p + field_header(name) + b),
                        Outcome::Fails(e) => Outcome::Fails(e),
                        Outcome::Panics => Outcome::Panics,
                    }
                }
            },
            Outcome::Fails(e) => Outcome::Fails(e),
            Outcome::Panics => Outcome::Panics,
        }
    }
}

/// The identity encoding: the rule's fields in the rule's order, under
/// canonicalization version 1.
pub open spec fn spec_canon_identity(
    rec: Map<Seq<char>, CanonValue>,
    names: Seq<Seq<char>>,
    c: CanonSpec,
) -> Outcome<Seq<u8>> {
    if c.version != 1 {
        Outcome::Fails(ErrorView::UnsupportedCanonVersion(c.version))
    } else {
        spec_canon_fields(rec, names, c)
    }
}

/// The content encoding: the fields sorted by their UTF-8 bytes, under
/// canonicalization version 1.
pub open spec fn spec_canon_content(
    rec: Map<Seq<char>, CanonValue>,
    fields: Seq<Seq<char>>,
    c: CanonSpec,
) -> Outcome<Seq<u8>> {
    if c.version != 1 {
        Outcome::Fails(ErrorView::UnsupportedCanonVersion(c.version))
    } else {
        spec_canon_fields(rec, fields.sort_by(utf8_leq()), c)
    }
}

proof fn lemma_fields_stop_prefix(
    rec: Map<Seq<char>, CanonValue>,
    fields: Seq<Seq<char>>,
    c: CanonSpec,
    k: int,
)
    requires
        0 <= k <= fields.len(),
        !(spec_canon_fields(rec, fields.take(k), c) is Done),
    ensures
        spec_canon_fields(rec, fields, c) == spec_canon_fields(rec, fields.take(k), c),
    decreases fields.len() - k,
{
    if k < fields.len() {
        assert(fields.take(k + 1).drop_last() =~= fields.take(k));
        lemma_fields_stop_prefix(rec, fields, c, k + 1);
    } else {
        assert(fields.take(k) =~= fields);
    }
}

/// Encodes the named fields of a record, in the given order.
pub fn canon_fields(record: &Record, fields: &[String], spec: &CanonSpec) -> (r: CoreResult<Vec<u8>>)
    requires
        !(spec_canon_fields(record@, string_views(fields@), *spec) is Panics),
    ensures
        spec_canon_fields(record@, string_views(fields@), *spec) matches Outcome::Done(b) ==> r matches Ok(
            v,
        ) && v@ == b,
        spec_canon_fields(record@, string_views(fields@), *spec) matches Outcome::Fails(e) ==> r matches Err(
            x,
        ) && x@ == e,
{
    let ghost names = string_views(fields@);
    let ghost rec = record@;
    let ghost c = *spec;
    let mut out: Vec<u8> = Vec::new();
    let mut i: usize = 0;
    assert(names.take(0) =~= Seq::<Seq<char>>::empty());
    while i < fields.len()
        invariant
            0 <= i <= fields@.len(),
            names == string_views(fields@),
            rec == record@,
            c == *spec,
            !(spec_canon_fields(rec, names, c) is Panics),
            spec_canon_fields(rec, names.take(i as int), c) == Outcome::Done(out@),
        decreases fields@.len() - i,
    {
        let name = &fields[i];
        let ghost t = names.take(i + 1);
        assert(t.drop_last() =~= names.take(i as int));
        assert(t.last() == name@);
        match record.get(name.as_str()) {
            None => {
                proof {
                    lemma_fields_stop_prefix(rec, names, c, i + 1);
                }
                return Err(CoreError::MissingIdentityField(name.clone()));
            },
            Some(value) => {
                assert(names[i as int] == name@);
                proof {
                    if spec_encode_value(rec[name@], c) is Panics {
                        lemma_fields_stop_prefix(rec, names, c, i + 1);
                    }
                }
                push_chunk(&mut out, TAG_FIELD, name.as_str().as_bytes());
                match encode_value(&mut out, value, spec) {
                    Ok(()) => {},
                    Err(e) => {
                        proof {
                            lemma_fields_stop_prefix(rec, names, c, i + 1);
                        }
                        return Err(e);
                    },
                }
            },
        }
        i = i + 1;
    }
    assert(names.take(fields@.len() as int) =~= names);
    Ok(out)
}

/// The identity encoding of a record: the rule's fields in the rule's order.
pub fn canon_identity(record: &Record, rule: &IdentityRule, spec: &CanonSpec) -> (r: CoreResult<
    Vec<u8>,
>)
    requires
        !(spec_canon_identity(record@, rule@.1, *spec) is Panics),
    ensures
        spec_canon_identity(record@, rule@.1, *spec) matches Outcome::Done(b) ==> r matches Ok(v)
            && v@ == b,
        spec_canon_identity(record@, rule@.1, *spec) matches Outcome::Fails(e) ==> r matches Err(x)
            && x@ == e,
{
    if spec.version != 1 {
        return Err(CoreError::UnsupportedCanonVersion(spec.version));
    }
    let fields = identity_field_names(rule);
    canon_fields(record, fields, spec)
}

/// The content encoding of a record: the fields in lexicographic order, so
/// that the order in which they are listed does not matter.
pub fn canon_content(record: &Record, fields: &[String], spec: &CanonSpec) -> (r: CoreResult<
    Vec<u8>,
>)
    requires
        !(spec_canon_content(record@, string_views(fields@), *spec) is Panics),
    ensures
        spec_canon_content(record@, string_views(fields@), *spec) matches Outcome::Done(b) ==> r matches Ok(
            v,
        ) && v@ == b,
        spec_canon_content(record@, string_views(fields@), *spec) matches Outcome::Fails(e) ==> r matches Err(
            x,
        ) && x@ == e,
{
    if spec.version != 1 {
        return Err(CoreError::UnsupportedCanonVersion(spec.version));
    }
    let sorted = sort_strings(fields);
    canon_fields(record, sorted.as_slice(), spec)
}

// ---------------------------------------------------------------------------
// Laws
// ---------------------------------------------------------------------------

/// The content encoding does not depend on the order in which the content
/// fields are listed: any two listings of the same fields encode a record
/// alike.
pub proof fn law_content_canon_field_order_independent(
    rec: Map<Seq<char>, CanonValue>,
    fields1: Seq<Seq<char>>,
    fields2: Seq<Seq<char>>,
    c: CanonSpec,
)
    requires
        fields1.to_multiset() == fields2.to_multiset(),
    ensures
        spec_canon_content(rec, fields1, c) == spec_canon_content(rec, fields2, c),
{
    let leq = utf8_leq();
    lemma_utf8_leq_total();
    fields1.lemma_sort_by_ensures(leq);
    fields2.lemma_sort_by_ensures(leq);
    vstd::seq_lib::lemma_sorted_unique(fields1.sort_by(leq), fields2.sort_by(leq), leq);
}

/// The tag byte that an encoded value starts with.
pub open spec fn value_tag(v: CanonValue) -> u8 {
    match v {
        CanonValue::Null => TAG_NULL,
        CanonValue::Bool(_) => TAG_BOOL,
        CanonValue::String(s) => if starts_with(s@, "ts:"@) {
            TAG_TIMESTAMP
        } else if starts_with(s@, "dec:"@) {
            TAG_DECIMAL
        } else {
            TAG_STRING
        },
        CanonValue::Decimal(_) => TAG_DECIMAL,
        CanonValue::Timestamp(_) => TAG_TIMESTAMP,
        CanonValue::Array(_) => TAG_ARRAY,
    }
}

proof fn lemma_encoding_first_byte(v: CanonValue, c: CanonSpec)
    ensures
        spec_encode_value(v, c) matches Outcome::Done(b) ==> b.len() > 0 && b[0] == value_tag(v),
{
    match v {
        CanonValue::Array(items) => {
            match spec_encode_items(items@, c) {
                Outcome::Done(parts) => {
                    let b = spec_encode_value(v, c)->Done_0;
                    assert(b[0] == TAG_ARRAY);
                },
                _ => {},
            }
        },
        _ => {},
    }
}

/// Every encoded value starts with its type tag, so a null never encodes
/// like any other value (the empty string among them).
pub proof fn law_encoding_starts_with_tag(v: CanonValue, c: CanonSpec)
    ensures
        spec_encode_value(v, c) matches Outcome::Done(b) ==> b.len() > 0 && b[0] == value_tag(v),
        v !is Null ==> value_tag(v) != TAG_NULL,
        spec_encode_value(v, c) matches Outcome::Done(b) ==> (b == seq![TAG_NULL] <==> v is Null),
{
    lemma_encoding_first_byte(v, c);
    if let Outcome::Done(b) = spec_encode_value(v, c) {
        if v is Null {
            assert(b =~= seq![TAG_NULL]);
        } else {
            assert(b[0] != seq![TAG_NULL][0]);
        }
    }
}

/// Two records agree on the named fields: each holds a field exactly when
/// the other does, with the same value.
pub open spec fn agree_on(
    rec1: Map<Seq<char>, CanonValue>,
    rec2: Map<Seq<char>, CanonValue>,
    fields: Seq<Seq<char>>,
) -> bool {
    forall|i: int|
        0 <= i < fields.len() ==> (rec1.dom().contains(#[trigger] fields[i])
            <==> rec2.dom().contains(fields[i])) && (rec1.dom().contains(fields[i])
            ==> rec1[fields[i]] == rec2[fields[i]])
}

proof fn lemma_canon_fields_agree(
    rec1: Map<Seq<char>, CanonValue>,
    rec2: Map<Seq<char>, CanonValue>,
    fields: Seq<Seq<char>>,
    c: CanonSpec,
)
    requires
        agree_on(rec1, rec2, fields),
    ensures
        spec_canon_fields(rec1, fields, c) == spec_canon_fields(rec2, fields, c),
    decreases fields.len(),
{
    if fields.len() > 0 {
        let d = fields.drop_last();
        assert forall|i: int| 0 <= i < d.len() implies (rec1.dom().contains(#[trigger] d[i])
            <==> rec2.dom().contains(d[i])) && (rec1.dom().contains(d[i]) ==> rec1[d[i]]
            == rec2[d[i]]) by {
            assert(d[i] == fields[i]);
        }
        lemma_canon_fields_agree(rec1, rec2, d, c);
        assert(fields.last() == fields[fields.len() - 1]);
    }
}

/// Only the content fields matter: two records that agree on the content
/// fields (whatever else they hold, metadata fields among it) have the same
/// content encoding.
pub proof fn law_content_depends_only_on_content_fields(
    rec1: Map<Seq<char>, CanonValue>,
    rec2: Map<Seq<char>, CanonValue>,
    fields: Seq<Seq<char>>,
    c: CanonSpec,
)
    requires
        agree_on(rec1, rec2, fields),
    ensures
        spec_canon_content(rec1, fields, c) == spec_canon_content(rec2, fields, c),
{
    broadcast use vstd::seq_lib::group_to_multiset_ensures;

    let leq = utf8_leq();
    lemma_utf8_leq_total();
    fields.lemma_sort_by_ensures(leq);
    let sorted = fields.sort_by(leq);
    assert forall|i: int| 0 <= i < sorted.len() implies (rec1.dom().contains(#[trigger] sorted[i])
        <==> rec2.dom().contains(sorted[i])) && (rec1.dom().contains(sorted[i]) ==> rec1[sorted[i]]
        == rec2[sorted[i]]) by {
        assert(sorted.contains(sorted[i]));
        vstd::seq_lib::to_multiset_contains(sorted, sorted[i]);
        vstd::seq_lib::to_multiset_contains(fields, sorted[i]);
        let j = choose|j: int| 0 <= j < fields.len() && fields[j] == sorted[i];
        assert(fields[j] == sorted[i]);
    }
    lemma_canon_fields_agree(rec1, rec2, sorted, c);
}

proof fn lemma_encode_utf8_concat(a: Seq<char>, b: Seq<char>)
    ensures
        encode_utf8(a + b) == encode_utf8(a) + encode_utf8(b),
    decreases a.len(),
{
    if a.len() > 0 {
        assert((a + b).drop_first() =~= a.drop_first() + b);
        lemma_encode_utf8_concat(a.drop_first(), b);
        assert(encode_utf8(a + b) =~= encode_utf8(a) + encode_utf8(b));
    } else {
        assert(a + b =~= b);
        assert(encode_utf8(a) + encode_utf8(b) =~= encode_utf8(b));
    }
}

proof fn lemma_encode_utf8_digits_len(f: Seq<char>)
    requires
        forall|i: int| 0 <= i < f.len() ==> is_digit(#[trigger] f[i]),
    ensures
        encode_utf8(f).len() == f.len(),
    decreases f.len(),
{
    if f.len() > 0 {
        assert forall|i: int| 0 <= i < f.drop_first().len() implies is_digit(
            #[trigger] f.drop_first()[i],
        ) by {
            assert(f.drop_first()[i] == f[i + 1]);
        }
        lemma_encode_utf8_digits_len(f.drop_first());
        assert(is_digit(f[0]));
        assert(encode_scalar(f[0] as u32).len() == 1);
    }
}

proof fn lemma_plain_decimal(w: Seq<char>, f: Seq<char>)
    requires
        whole_ok(w),
        forall|i: int| 0 <= i < f.len() ==> is_digit(#[trigger] f[i]),
    ensures
        trim(w + seq!['.'] + f) == w + seq!['.'] + f,
        decimal_whole(w + seq!['.'] + f) == w,
        decimal_frac(w + seq!['.'] + f) == f,
        decimal_ok(w + seq!['.'] + f),
{
    let s = w + seq!['.'] + f;
    assert(s[0] == w[0]);
    assert(!is_ws(s[0]));
    assert(trim_start(s) == s);
    assert(!is_ws(s.last())) by {
        if f.len() > 0 {
            assert(s.last() == f[f.len() - 1]);
        } else {
            assert(s.last() == '.');
        }
    }
    assert(trim_end(s) == s);
    assert forall|j: int| 0 <= j < w.len() implies s[j] != '.' by {
        assert(s[j] == w[j]);
    }
    lemma_char_pos(s, '.', w.len() as int);
    assert(s.take(w.len() as int) =~= w);
    assert(s.skip(w.len() as int + 1) =~= f);
}

/// Trailing zeros do not matter within the scale: a decimal and the same
/// decimal with one more `0` in its fraction have the same canonical text,
/// as long as the fraction stays within the scale.
pub proof fn law_decimal_trailing_zero(w: Seq<char>, f: Seq<char>, scale: u32)
    requires
        whole_ok(w),
        forall|i: int| 0 <= i < f.len() ==> is_digit(#[trigger] f[i]),
        f.len() < scale,
    ensures
        spec_canonical_decimal(w + seq!['.'] + f.push('0'), scale) == spec_canonical_decimal(
            w + seq!['.'] + f,
            scale,
        ),
{
    let f0 = f.push('0');
    assert forall|i: int| 0 <= i < f0.len() implies is_digit(#[trigger] f0[i]) by {
        if i < f.len() {
            assert(f0[i] == f[i]);
        }
    }
    lemma_plain_decimal(w, f);
    lemma_plain_decimal(w, f0);
    lemma_encode_utf8_digits_len(f);
    lemma_encode_utf8_digits_len(f0);
    let n = scale as nat;
    assert(scaled_frac(f0, n) =~= scaled_frac(f, n));
}

proof fn lemma_be32_injective(n: u32, m: u32)
    requires
        be32(n) == be32(m),
    ensures
        n == m,
{
    assert(be32(n)[0] == be32(m)[0]);
    assert(be32(n)[1] == be32(m)[1]);
    assert(be32(n)[2] == be32(m)[2]);
    assert(be32(n)[3] == be32(m)[3]);
    let (n0, n1, n2, n3) = (n / 0x100_0000, (n / 0x1_0000) % 0x100, (n / 0x100) % 0x100, n % 0x100);
    let (m0, m1, m2, m3) = (m / 0x100_0000, (m / 0x1_0000) % 0x100, (m / 0x100) % 0x100, m % 0x100);
    assert(n0 < 0x100 && m0 < 0x100);
    assert(n0 == m0);
    assert(n1 == m1);
    assert(n2 == m2);
    assert(n3 == m3);
    assert(n == m) by (bit_vector)
        requires
            n / 0x100_0000 == m / 0x100_0000,
            (n / 0x1_0000) % 0x100 == (m / 0x1_0000) % 0x100,
            (n / 0x100) % 0x100 == (m / 0x100) % 0x100,
            n % 0x100 == m % 0x100,
    ;
}

proof fn lemma_fields_push(
    rec: Map<Seq<char>, CanonValue>,
    fields: Seq<Seq<char>>,
    c: CanonSpec,
    p: Seq<u8>,
    name: Seq<char>,
    e: Seq<u8>,
)
    requires
        spec_canon_fields(rec, fields, c) == Outcome::Done(p),
        rec.dom().contains(name),
        spec_encode_value(rec[name], c) == Outcome::Done(e),
    ensures
        spec_canon_fields(rec, fields.push(name), c) == Outcome::Done(p + field_header(name) + e),
{
    assert(fields.push(name).drop_last() =~= fields);
    assert(fields.push(name).last() == name);
}

proof fn lemma_two_fields(
    rec: Map<Seq<char>, CanonValue>,
    a: Seq<char>,
    b: Seq<char>,
    c: CanonSpec,
    ea: Seq<u8>,
    eb: Seq<u8>,
)
    requires
        rec.dom().contains(a),
        rec.dom().contains(b),
        spec_encode_value(rec[a], c) == Outcome::Done(ea),
        spec_encode_value(rec[b], c) == Outcome::Done(eb),
    ensures
        spec_canon_fields(rec, seq![a, b], c) == Outcome::Done(
            Seq::<u8>::empty() + field_header(a) + ea + field_header(b) + eb,
        ),
{
    let empty = Seq::<Seq<char>>::empty();
    assert(spec_canon_fields(rec, empty, c) == Outcome::<Seq<u8>>::Done(Seq::<u8>::empty()));
    lemma_fields_push(rec, empty, c, Seq::<u8>::empty(), a, ea);
    assert(empty.push(a) =~= seq![a]);
    lemma_fields_push(rec, seq![a], c, Seq::<u8>::empty() + field_header(a) + ea, b, eb);
    assert(seq![a].push(b) =~= seq![a, b]);
}

proof fn lemma_headers_differ(a: Seq<char>, b: Seq<char>, ea: Seq<u8>, eb: Seq<u8>)
    requires
        a != b,
        encode_utf8(a).len() <= u32::MAX,
        encode_utf8(b).len() <= u32::MAX,
    ensures
        Seq::<u8>::empty() + field_header(a) + ea + field_header(b) + eb != Seq::<u8>::empty()
            + field_header(b) + eb + field_header(a) + ea,
{
    let x = Seq::<u8>::empty() + field_header(a) + ea + field_header(b) + eb;
    let y = Seq::<u8>::empty() + field_header(b) + eb + field_header(a) + ea;
    let ua = encode_utf8(a);
    let ub = encode_utf8(b);
    if ua.len() != ub.len() {
        if be32(ua.len() as u32) == be32(ub.len() as u32) {
            lemma_be32_injective(ua.len() as u32, ub.len() as u32);
        }
        assert(x.subrange(1, 5) =~= be32(ua.len() as u32));
        assert(y.subrange(1, 5) =~= be32(ub.len() as u32));
    } else {
        assert(ua != ub) by {
            encode_utf8_decode_utf8(a);
            encode_utf8_decode_utf8(b);
        }
        assert(exists|i: int| 0 <= i < ua.len() && ua[i] != ub[i]) by {
            if forall|i: int| 0 <= i < ua.len() ==> ua[i] == ub[i] {
                assert(ua =~= ub);
            }
        }
        let i = choose|i: int| 0 <= i < ua.len() && ua[i] != ub[i];
        let ha = field_header(a);
        let hb = field_header(b);
        let pa = seq![TAG_FIELD] + be32(ua.len() as u32);
        let pb = seq![TAG_FIELD] + be32(ub.len() as u32);
        assert(pa.len() == 5 && pb.len() == 5);
        assert(ha == pa + ua);
        assert(hb == pb + ub);
        assert((pa + ua)[5 + i] == ua[i]);
        assert((pb + ub)[5 + i] == ub[i]);
        assert(x[5 + i] == ha[5 + i]);
        assert(y[5 + i] == hb[5 + i]);
    }
}

/// The composite identity keeps the order of its fields: listing two
/// different fields the other way round changes the identity encoding.
pub proof fn law_identity_field_order_matters(
    rec: Map<Seq<char>, CanonValue>,
    a: Seq<char>,
    b: Seq<char>,
    c: CanonSpec,
)
    requires
        a != b,
        rec.dom().contains(a),
        rec.dom().contains(b),
        encode_utf8(a).len() <= u32::MAX,
        encode_utf8(b).len() <= u32::MAX,
        c.version == 1,
        spec_encode_value(rec[a], c) is Done,
        spec_encode_value(rec[b], c) is Done,
    ensures
        spec_canon_identity(rec, seq![a, b], c) is Done,
        spec_canon_identity(rec, seq![a, b], c) != spec_canon_identity(rec, seq![b, a], c),
{
    let ea = spec_encode_value(rec[a], c)->Done_0;
    let eb = spec_encode_value(rec[b], c)->Done_0;
    lemma_two_fields(rec, a, b, c, ea, eb);
    lemma_two_fields(rec, b, a, c, eb, ea);
    lemma_headers_differ(a, b, ea, eb);
}

// ---------------------------------------------------------------------------
// Which way an encoding goes
// ---------------------------------------------------------------------------

/// Whether an encoding gives bytes, an error or a panic.
#[derive(Debug, Clone, Copy, PartialEq, Eq, Structural)]
pub enum OutcomeKind {
    Done,
    Fails,
    Panics,
}

/// The kind of an outcome.
pub open spec fn kind_of<T>(o: Outcome<T>) -> OutcomeKind {
    match o {
        Outcome::Done(_) => OutcomeKind::Done,
        Outcome::Fails(_) => OutcomeKind::Fails,
        Outcome::Panics => OutcomeKind::Panics,
    }
}

/// Tests whether the canonical text of a decimal literal would cut its
/// fraction inside a character.
pub fn decimal_cut_panics(s: &str, scale: u32) -> (r: bool)
    ensures
        r == decimal_cut_splits_char(s@, scale),
{
    let t = trim_str(s);
    let n = t.unicode_len();
    if n == 0 {
        return false;
    }
    let p = find_char(t, '.');
    let whole = t.substring_char(0, p);
    let frac = if p < n {
        t.substring_char(p + 1, n)
    } else {
        ""
    };
    proof {
        reveal_strlit("");
        assert(whole@ =~= decimal_whole(t@));
        assert(frac@ =~= decimal_frac(t@));
    }
    let wn = whole.unicode_len();
    if wn == 0 {
        return false;
    }
    let mut i: usize = 0;
    while i < wn
        invariant
            0 <= i <= wn,
            wn == whole@.len(),
            t@ == trim(s@),
            t@.len() > 0,
            whole@ == decimal_whole(t@),
            forall|j: int| 0 <= j < i ==> is_digit(#[trigger] whole@[j]) || whole@[j] == '-',
        decreases wn - i,
    {
        let c = whole.get_char(i);
        if !(('0' <= c && c <= '9') || c == '-') {
            assert(!(is_digit(whole@[i as int]) || whole@[i as int] == '-'));
            assert(!whole_ok(whole@));
            return false;
        }
        i = i + 1;
    }
    let fb = frac.as_bytes().len();
    let sc = scale as usize;
    fb > sc && !frac.is_char_boundary(sc)
}

/// Which way encoding a value goes.
pub fn encode_value_kind(value: &CanonValue, spec: &CanonSpec) -> (r: OutcomeKind)
    ensures
        r == kind_of(spec_encode_value(*value, *spec)),
    decreases value,
{
    proof {
        reveal_strlit("ts:");
        reveal_strlit("dec:");
    }
    match value {
        CanonValue::String(s) => {
            if let Some(_ts) = strip_prefix_str(s.as_str(), "ts:") {
                OutcomeKind::Done
            } else if let Some(dec) = strip_prefix_str(s.as_str(), "dec:") {
                decimal_kind(dec, spec.decimal_scale)
            } else {
                OutcomeKind::Done
            }
        },
        CanonValue::Decimal(d) => {
            let lit = match strip_prefix_str(d.as_str(), "dec:") {
                Some(rest) => rest,
                None => d.as_str(),
            };
            assert(lit@ == strip_dec(d@));
            decimal_kind(lit, spec.decimal_scale)
        },
        CanonValue::Timestamp(t) => match normalize_timestamp(t.as_str(), spec) {
            Ok(_) => OutcomeKind::Done,
            Err(_) => OutcomeKind::Fails,
        },
        CanonValue::Array(items) => {
            let ghost c = *spec;
            let ghost iv = items@;
            assert(decreases_to!(value => items));
            let mut i: usize = 0;
            assert(iv.take(0) =~= Seq::<CanonValue>::empty());
            while i < items.len()
                invariant
                    0 <= i <= iv.len(),
                    iv == items@,
                    c == *spec,
                    decreases_to!(value => items),
                    *value == CanonValue::Array(*items),
                    spec_encode_items(iv.take(i as int), c) is Done,
                decreases iv.len() - i,
            {
                proof {
                    lemma_items_step(iv, c, i as int);
                    assert(decreases_to!(items => items@));
                    assert(decreases_to!(items@ => items@[i as int]));
                }
                let k = encode_value_kind(&items[i], spec);
                if k != OutcomeKind::Done {
                    proof {
                        lemma_items_stop_prefix(iv, c, i + 1);
                    }
                    return k;
                }
                i = i + 1;
            }
            assert(iv.take(iv.len() as int) =~= iv);
            OutcomeKind::Done
        },
        _ => OutcomeKind::Done,
    }
}

/// Which way encoding a decimal goes.
fn decimal_kind(s: &str, scale: u32) -> (r: OutcomeKind)
    ensures
        r == kind_of(spec_encode_decimal(s@, scale)),
{
    if decimal_cut_panics(s, scale) {
        return OutcomeKind::Panics;
    }
    match canonical_decimal(s, scale) {
        Ok(_) => OutcomeKind::Done,
        Err(_) => OutcomeKind::Fails,
    }
}

/// Which way encoding the named fields of a record goes.
pub fn canon_fields_kind(record: &Record, fields: &[String], spec: &CanonSpec) -> (r: OutcomeKind)
    ensures
        r == kind_of(spec_canon_fields(record@, string_views(fields@), *spec)),
{
    let ghost names = string_views(fields@);
    let ghost rec = record@;
    let ghost c = *spec;
    let mut i: usize = 0;
    assert(names.take(0) =~= Seq::<Seq<char>>::empty());
    while i < fields.len()
        invariant
            0 <= i <= fields@.len(),
            names == string_views(fields@),
            rec == record@,
            c == *spec,
            spec_canon_fields(rec, names.take(i as int), c) is Done,
        decreases fields@.len() - i,
    {
        let name = &fields[i];
        let ghost t = names.take(i + 1);
        assert(t.drop_last() =~= names.take(i as int));
        assert(t.last() == name@);
        match record.get(name.as_str()) {
            None => {
                proof {
                    lemma_fields_stop_prefix(rec, names, c, i + 1);
                }
                return OutcomeKind::Fails;
            },
            Some(value) => {
                let k = encode_value_kind(value, spec);
                if k != OutcomeKind::Done {
                    proof {
                        lemma_fields_stop_prefix(rec, names, c, i + 1);
                    }
                    return k;
                }
            },
        }
        i = i + 1;
    }
    assert(names.take(fields@.len() as int) =~= names);
    OutcomeKind::Done
}

} // verus!
