//! Conversion of decoded bytes with ECI spans to a string.
//!
//! Bytes before the first ECI, and bytes under the ECIs 0, 1 and 3, are read
//! as ISO/IEC 8859-1 (Latin-1); bytes under ECI 26 as UTF-8. Other character
//! sets are not supported.
use vstd::prelude::*;
use vstd::string::*;
use vstd::utf8::{decode_utf8, valid_utf8};

use super::DataDecodingError;
use crate::encodation::ECI_UTF8;

verus! {

/// `core::str::from_utf8`: `Some` exactly when the bytes are valid UTF-8
/// (as vstd's `valid_utf8` defines it), and then the string's UTF-8 bytes
/// are the input. Nothing else is claimed of the outside function.
#[verifier::external_body]
fn str_from_utf8(bytes: &[u8]) -> (r: Option<&str>)
    ensures
        r is Some <==> valid_utf8(bytes@),
        r matches Some(s) ==> s.spec_bytes() == bytes@,
{
    core::str::from_utf8(bytes).ok()
}

/// `String::push`: appends the character to the end of the string.
#[verifier::external_body]
pub(crate) fn string_push(s: &mut String, c: char)
    ensures
        final(s)@ == old(s)@.push(c),
{
    s.push(c)
}

/// The characters of Latin-1 bytes: each byte is the code point of its character.
pub open spec fn spec_latin1_chars(bytes: Seq<u8>) -> Seq<char> {
    bytes.map_values(|b: u8| b as char)
}

/// The characters of `bytes` in the character set of ECI `eci`, if supported.
pub open spec fn spec_charset_chars(bytes: Seq<u8>, eci: u32) -> Option<Seq<char>> {
    if eci == 0 || eci == 1 || eci == 3 {
        Some(spec_latin1_chars(bytes))
    } else if eci == ECI_UTF8 {
        if valid_utf8(bytes) {
            Some(decode_utf8(bytes))
        } else {
            None
        }
    } else {
        None
    }
}

/// End of the span that starts at `start` and ends at the offset `offset`,
/// kept inside `start..=len`.
pub open spec fn spec_span_end(start: int, offset: int, len: int) -> int {
    if offset < start {
        start
    } else if offset > len {
        len
    } else {
        offset
    }
}

/// Converts `out` from `start` on, under the charset `charset` until the span
/// `k`, then under the ECI of each later span.
pub open spec fn spec_convert(
    out: Seq<u8>,
    spans: Seq<(usize, u32)>,
    k: int,
    start: int,
    charset: u32,
    acc: Seq<char>,
) -> Result<Seq<char>, DataDecodingError>
    decreases spans.len() - k,
{
    if k < 0 || k >= spans.len() {
        match spec_charset_chars(out.subrange(start, out.len() as int), charset) {
            Some(c) => Ok(acc + c),
            None => Err(DataDecodingError::CharsetError),
        }
    } else {
        let end = spec_span_end(start, spans[k].0 as int, out.len() as int);
        match spec_charset_chars(out.subrange(start, end), charset) {
            Some(c) => spec_convert(out, spans, k + 1, end, spans[k].1, acc + c),
            None => Err(DataDecodingError::CharsetError),
        }
    }
}

/// Appends the characters of `bytes[start..end]` in the character set of `eci`.
fn push_segment(
    s: &mut String,
    bytes: &[u8],
    start: usize,
    end: usize,
    eci: u32,
) -> (r: Result<(), DataDecodingError>)
    requires
        start <= end <= bytes@.len(),
    ensures
        match spec_charset_chars(bytes@.subrange(start as int, end as int), eci) {
            Some(c) => r is Ok && final(s)@ == old(s)@ + c,
            None => r == Err::<(), DataDecodingError>(DataDecodingError::CharsetError),
        },
{
    if eci == 0 || eci == 1 || eci == 3 {
        let mut i: usize = start;
        while i < end
            invariant
                start <= i <= end,
                end <= bytes@.len(),
                s@ == old(s)@ + spec_latin1_chars(bytes@.subrange(start as int, i as int)),
            decreases end - i,
        {
            string_push(s, bytes[i] as char);
            i += 1;
            proof {
                assert(bytes@.subrange(start as int, i as int) =~= bytes@.subrange(
                    start as int,
                    i - 1,
                ).push(bytes@[i - 1]));
                assert(spec_latin1_chars(bytes@.subrange(start as int, i as int))
                    =~= spec_latin1_chars(bytes@.subrange(start as int, i - 1)).push(
                    bytes@[i - 1] as char,
                ));
            }
        }
        Ok(())
    } else if eci == ECI_UTF8 {
        let segment = slice_range(bytes, start, end);
        match str_from_utf8(segment.as_slice()) {
            Some(text) => {
                proof {
                    vstd::utf8::encode_utf8_decode_utf8(text@);
                }
                s.append(text);
                Ok(())
            },
            None => Err(DataDecodingError::CharsetError),
        }
    } else {
        Err(DataDecodingError::CharsetError)
    }
}

/// The bytes `bytes[start..end]`.
fn slice_range(bytes: &[u8], start: usize, end: usize) -> (r: Vec<u8>)
    requires
        start <= end <= bytes@.len(),
    ensures
        r@ == bytes@.subrange(start as int, end as int),
{
    let mut v: Vec<u8> = Vec::new();
    let mut i: usize = start;
    while i < end
        invariant
            start <= i <= end,
            end <= bytes@.len(),
            v@ == bytes@.subrange(start as int, i as int),
        decreases end - i,
    {
        v.push(bytes[i]);
        i += 1;
        proof {
            assert(v@ =~= bytes@.subrange(start as int, i as int));
        }
    }
    v
}

/// Converts decoded bytes with their ECI spans to a string.
pub fn convert(output: &[u8], spans: &[(usize, u32)]) -> (r: Result<String, DataDecodingError>)
    ensures
        match spec_convert(output@, spans@, 0, 0, 3, Seq::empty()) {
            Ok(c) => r matches Ok(s) && s@ == c,
            Err(e) => r == Err::<String, DataDecodingError>(e),
        },
{
    let mut s = String::new();
    let mut start: usize = 0;
    let mut charset: u32 = 3;
    let mut k: usize = 0;
    while k < spans.len()
        invariant
            k <= spans@.len(),
            start <= output@.len(),
            spec_convert(output@, spans@, k as int, start as int, charset, s@) == spec_convert(
                output@,
                spans@,
                0,
                0,
                3,
                Seq::empty(),
            ),
        decreases spans@.len() - k,
    {
        let (offset, eci) = spans[k];
        let end = if offset < start {
            start
        } else if offset > output.len() {
            output.len()
        } else {
            offset
        };
        push_segment(&mut s, output, start, end, charset)?;
        start = end;
        charset = eci;
        k += 1;
    }
    push_segment(&mut s, output, start, output.len(), charset)?;
    Ok(s)
}

} // verus!

verus! {

/// Under ECI 26 the bytes are read as UTF-8: the UTF-8 encoding of any
/// text reads back as that text.
pub proof fn lemma_utf8_charset_round_trip(s: Seq<char>)
    ensures
        spec_charset_chars(vstd::utf8::encode_utf8(s), ECI_UTF8) == Some(s),
{
    vstd::utf8::encode_utf8_valid_utf8(s);
    vstd::utf8::encode_utf8_decode_utf8(s);
}

/// Under the Latin-1 ECIs (0, 1 and 3) each byte is the character of its
/// code point.
pub proof fn lemma_latin1_charset(bytes: Seq<u8>, eci: u32)
    requires
        eci == 0 || eci == 1 || eci == 3,
    ensures
        spec_charset_chars(bytes, eci) matches Some(c) && c.len() == bytes.len() && forall|i: int|
            0 <= i < bytes.len() ==> #[trigger] c[i] as u32 == bytes[i] as u32,
{
}

} // verus!
