//! Encoding and decoding of the data part.
//!
//! The bytes encoded in a Data Matrix symbol consist of two parts: the data,
//! i.e. the information that is meant to be encoded, and the error
//! correction codewords. The functions of this module encode and decode the
//! data part; users of the library rarely need them directly.
use vstd::prelude::*;
use crate::symbol_size::{SymbolList, SymbolSize, spec_first_fit};
use crate::encodation::ECI_UTF8;
use crate::encodation::{DataEncodingError, Fnc1Position, READER_PROGRAMMING, ECI, spec_eci_codewords,
    write_eci_codewords};
use crate::encodation::ascii::{FNC1, PAD, UPPER_SHIFT};
use crate::decodation::eci::string_push;
use vstd::string::StrSliceExecFns;

pub use crate::decodation::{DataDecodingError, DecodedMessage, decode_data, decode_message, decode_str};
use crate::decodation::modes::{spec_ascii, spec_ascii_step, spec_pad_check, spec_derandomize_253, spec_read_eci};
use crate::decodation::{spec_decode_data, spec_decode_parts, spec_run, spec_mode, spec_macro_version};

verus! {

/// A data or control part of a Data Matrix message.
///
/// With these, an ECI can occur several times in a message or after data,
/// and FNC1 can separate fields at later positions. `ReaderProgramming` can
/// only be the first codeword.
#[derive(Debug, Clone, Copy, PartialEq, Eq)]
pub enum DataMatrixSegment<'a> {
    /// Bytes, interpreted under the default or the last selected ECI.
    Data(&'a [u8]),
    /// Selects the ECI assignment number, in `0..=999999`.
    Eci(u32),
    /// An FNC1 codeword: a format flag in the first or second position, a GS
    /// field separator later (7.2.4.7).
    Fnc1,
    /// Marks a Reader Programming message; only allowed as the first codeword.
    ReaderProgramming,
}

/// Whether the byte is an ASCII digit.
pub open spec fn is_digit(b: u8) -> bool {
    48 <= b <= 57
}

/// The ASCII codeword of two digits.
pub open spec fn digit_pair(a: u8, b: u8) -> u8 {
    ((a - 48) * 10 + (b - 48) + 130) as u8
}

/// The ASCII codewords of `d`, and the digit left over at its end: digit
/// pairs take one codeword, other bytes up to 127 one codeword, bytes above
/// 127 the upper shift and one codeword. A single digit at the end is kept
/// back, so that it can pair with a digit that follows.
pub open spec fn spec_ascii_codewords(d: Seq<u8>) -> (Seq<u8>, Option<u8>)
    decreases d.len(),
{
    if d.len() == 0 {
        (seq![], None)
    } else if d.len() >= 2 && is_digit(d[0]) && is_digit(d[1]) {
        let r = spec_ascii_codewords(d.skip(2));
        (seq![digit_pair(d[0], d[1])] + r.0, r.1)
    } else if d.len() == 1 && is_digit(d[0]) {
        (seq![], Some(d[0]))
    } else if d[0] <= 127 {
        let r = spec_ascii_codewords(d.skip(1));
        (seq![(d[0] + 1) as u8] + r.0, r.1)
    } else {
        let r = spec_ascii_codewords(d.skip(1));
        (seq![UPPER_SHIFT, (d[0] - 127) as u8] + r.0, r.1)
    }
}

/// The digit left over by the ASCII encodation is a digit.
proof fn lemma_pending_is_digit(d: Seq<u8>)
    ensures
        spec_ascii_codewords(d).1 matches Some(x) ==> is_digit(x),
    decreases d.len(),
{
    if d.len() >= 2 && is_digit(d[0]) && is_digit(d[1]) {
        lemma_pending_is_digit(d.skip(2));
    } else if d.len() >= 1 && !(d.len() == 1 && is_digit(d[0])) {
        lemma_pending_is_digit(d.skip(1));
    }
}

/// The single ASCII codeword in front of `d` and the number of bytes it
/// stands for, when the first codeword is a digit pair or one byte up to 127.
pub open spec fn spec_first_ascii(d: Seq<u8>) -> Option<(u8, int)> {
    if d.len() >= 2 && is_digit(d[0]) && is_digit(d[1]) {
        Some((digit_pair(d[0], d[1]), 2))
    } else if d.len() >= 1 && d[0] <= 127 {
        Some(((d[0] + 1) as u8, 1))
    } else {
        None
    }
}

/// The codewords with a kept back digit written out.
pub open spec fn spec_flush(c: Seq<u8>, p: Option<u8>) -> Seq<u8> {
    match p {
        Some(d) => c.push((d + 1) as u8),
        None => c,
    }
}

/// The state of the segment encoder: the codewords so far, the kept back
/// digit and whether the FNC1 of the second position is still to come.
pub type SegmentState = (Seq<u8>, Option<u8>, bool);

/// The state after the bytes of a `Data` segment.
pub open spec fn data_step(st: SegmentState, bytes: Seq<u8>) -> Result<SegmentState, DataEncodingError> {
    let (c, p, f) = st;
    if bytes.len() == 0 {
        Ok(st)
    } else {
        let first: Result<(Seq<u8>, Seq<u8>), DataEncodingError> = if f {
            match spec_first_ascii(bytes) {
                Some((cw, n)) => Ok((c.push(cw).push(FNC1), bytes.skip(n))),
                None => Err(DataEncodingError::InvalidControlPosition(
                    "ikinci konumdaki FNC1 öncesindeki veri tek ASCII codeword olmalıdır",
                )),
            }
        } else {
            Ok((c, bytes))
        };
        match first {
            Err(e) => Err(e),
            Ok((c1, b1)) => {
                let (c2, b2) = match p {
                    Some(d) => if b1.len() > 0 && is_digit(b1[0]) {
                        (c1.push(digit_pair(d, b1[0])), b1.skip(1))
                    } else {
                        (c1.push((d + 1) as u8), b1)
                    },
                    None => (c1, b1),
                };
                let (cw, np) = spec_ascii_codewords(b2);
                Ok((c2 + cw, np, false))
            },
        }
    }
}

/// The state after one segment.
pub open spec fn segment_step(st: SegmentState, seg: DataMatrixSegment) -> Result<SegmentState, DataEncodingError> {
    let (c, p, f) = st;
    match seg {
        DataMatrixSegment::Data(bytes) => data_step(st, bytes@),
        DataMatrixSegment::Eci(eci) => if f {
            Err(DataEncodingError::InvalidControlPosition("ikinci konumdaki FNC1'den önce ECI kullanılamaz"))
        } else if eci > 999999 {
            Err(DataEncodingError::InvalidEci(eci))
        } else {
            Ok((spec_flush(c, p).push(ECI) + spec_eci_codewords(eci), None, f))
        },
        DataMatrixSegment::Fnc1 => if f {
            Err(DataEncodingError::InvalidControlPosition(
                "ikinci konumdaki FNC1 için önce bir ASCII data codeword gerekir",
            ))
        } else {
            Ok((spec_flush(c, p).push(FNC1), None, f))
        },
        DataMatrixSegment::ReaderProgramming => if f || spec_flush(c, p).len() > 0 {
            Err(DataEncodingError::InvalidControlPosition("Reader Programming ilk codeword olmalıdır"))
        } else {
            Ok((spec_flush(c, p).push(READER_PROGRAMMING), None, f))
        },
    }
}

/// The state after the segments `segs`, from `init`.
pub open spec fn segments_run(segs: Seq<DataMatrixSegment>, init: SegmentState) -> Result<SegmentState, DataEncodingError>
    decreases segs.len(),
{
    if segs.len() == 0 {
        Ok(init)
    } else {
        match segments_run(segs.drop_last(), init) {
            Err(e) => Err(e),
            Ok(st) => segment_step(st, segs.last()),
        }
    }
}

/// An error at one segment is the error of the whole run.
proof fn lemma_segments_error(segs: Seq<DataMatrixSegment>, init: SegmentState, k: int)
    requires
        0 <= k < segs.len(),
        segments_run(segs.take(k + 1), init) is Err,
    ensures
        segments_run(segs, init) == segments_run(segs.take(k + 1), init),
    decreases segs.len() - k,
{
    if k + 1 < segs.len() {
        assert(segs.take(k + 2).drop_last() =~= segs.take(k + 1));
        lemma_segments_error(segs, init, k + 1);
    } else {
        assert(segs.take(k + 1) =~= segs);
    }
}

/// The state before the first segment.
pub open spec fn segments_init(fnc1: Option<Fnc1Position>, reader_programming: bool) -> Result<SegmentState, DataEncodingError> {
    let c0: Seq<u8> = if reader_programming { seq![READER_PROGRAMMING] } else { seq![] };
    match fnc1 {
        Some(Fnc1Position::First) => if reader_programming {
            Err(DataEncodingError::InvalidControlPosition("FNC1 ve Reader Programming aynı ilk konumu kullanamaz"))
        } else {
            Ok((c0.push(FNC1), None, false))
        },
        Some(Fnc1Position::Second) => if reader_programming {
            Ok((c0.push(FNC1), None, false))
        } else {
            Ok((c0, None, true))
        },
        None => Ok((c0, None, false)),
    }
}

/// The data codewords of the segments before padding.
pub open spec fn spec_segment_codewords(
    segs: Seq<DataMatrixSegment>,
    fnc1: Option<Fnc1Position>,
    reader_programming: bool,
) -> Result<Seq<u8>, DataEncodingError> {
    match segments_init(fnc1, reader_programming) {
        Err(e) => Err(e),
        Ok(init) => match segments_run(segs, init) {
            Err(e) => Err(e),
            Ok((c, p, f)) => if f {
                Err(DataEncodingError::InvalidControlPosition(
                    "ikinci konumdaki FNC1 için bir ASCII data codeword gerekir",
                ))
            } else {
                Ok(spec_flush(c, p))
            },
        },
    }
}

/// The padding codeword at (1-based) position `pos`: 129 randomized by the
/// 253-state algorithm.
pub open spec fn spec_pad_codeword(pos: int) -> u8 {
    let pseudo_random = (149 * pos) % 253 + 1;
    let randomized = 129 + pseudo_random;
    if randomized <= 254 { randomized as u8 } else { (randomized - 254) as u8 }
}

/// The codewords `c` padded to `n` codewords: first the padding codeword
/// 129, then randomized padding codewords.
pub open spec fn spec_padded(c: Seq<u8>, n: int) -> Seq<u8> {
    if n <= c.len() {
        c
    } else {
        c.push(PAD) + Seq::new((n - c.len() - 1) as nat, |k: int| spec_pad_codeword(c.len() + 2 + k))
    }
}

/// Each padding codeword after the first is the padding codeword 129 under
/// the 253-state randomization of its 1-based position.
pub proof fn lemma_padding_derandomizes(c: Seq<u8>, n: int, p: int)
    requires
        c.len() < p < n,
    ensures
        spec_padded(c, n)[p] == spec_pad_codeword(p + 1),
        crate::decodation::modes::spec_derandomize_253(spec_padded(c, n)[p], p + 1) == PAD,
{
    assert(spec_padded(c, n)[p] == spec_pad_codeword(c.len() + 2 + (p - c.len() - 1)));
}

/// The result of padding codewords for the first size of the list that holds them.
pub open spec fn spec_pad(c: Seq<u8>, list: Seq<SymbolSize>) -> Result<(Seq<u8>, SymbolSize), DataEncodingError> {
    match spec_first_fit(list, c.len() as int) {
        None => Err(DataEncodingError::TooMuchOrIllegalData),
        Some(size) => Ok((spec_padded(c, size.spec_num_data_codewords()), size)),
    }
}

/// Encodes a message of data and control segments into data codewords.
///
/// Since an ECI can only be written from the ASCII encodation, each
/// [`Data`](DataMatrixSegment::Data) segment is encoded with the ASCII
/// scheme, with digit pairs and upper shifts. A digit pair may span
/// consecutive `Data` segments; a control codeword in between splits it.
pub fn encode_data_segments(segments: &[DataMatrixSegment], symbol_list: &SymbolList)
    -> (r: Result<(Vec<u8>, SymbolSize), DataEncodingError>)
    ensures
        segments_result(r, segments@, symbol_list@, None, false),
{
    encode_data_segments_internal(segments, symbol_list, None, false)
}

/// Whether `r` is the result of encoding the segments with the given FNC1
/// position and Reader Programming flag.
pub open spec fn segments_result(
    r: Result<(Vec<u8>, SymbolSize), DataEncodingError>,
    segs: Seq<DataMatrixSegment>,
    list: Seq<SymbolSize>,
    fnc1: Option<Fnc1Position>,
    reader_programming: bool,
) -> bool {
    if list.len() == 0 {
        r == Err::<(Vec<u8>, SymbolSize), DataEncodingError>(DataEncodingError::SymbolListEmpty)
    } else {
        match spec_segment_codewords(segs, fnc1, reader_programming) {
            Err(e) => r == Err::<(Vec<u8>, SymbolSize), DataEncodingError>(e),
            Ok(c) => match spec_pad(c, list) {
                Err(e) => r == Err::<(Vec<u8>, SymbolSize), DataEncodingError>(e),
                Ok((cw, size)) => r matches Ok((v, s)) && v@ == cw && s == size,
            },
        }
    }
}

/// Encodes the segments after an optional FNC1 format flag and Reader Programming flag.
pub fn encode_data_segments_internal(
    segments: &[DataMatrixSegment],
    symbol_list: &SymbolList,
    fnc1: Option<Fnc1Position>,
    reader_programming: bool,
) -> (r: Result<(Vec<u8>, SymbolSize), DataEncodingError>)
    ensures
        segments_result(r, segments@, symbol_list@, fnc1, reader_programming),
{
    if symbol_list.is_empty() {
        return Err(DataEncodingError::SymbolListEmpty);
    }
    let mut codewords: Vec<u8> = Vec::new();
    if reader_programming {
        codewords.push(READER_PROGRAMMING);
    }
    let mut fnc1_second_pending = false;
    match fnc1 {
        Some(Fnc1Position::First) => {
            if reader_programming {
                return Err(DataEncodingError::InvalidControlPosition(
                    "FNC1 ve Reader Programming aynı ilk konumu kullanamaz",
                ));
            }
            codewords.push(FNC1);
        },
        Some(Fnc1Position::Second) => {
            if reader_programming {
                codewords.push(FNC1);
            } else {
                fnc1_second_pending = true;
            }
        },
        None => {},
    }
    assert(segments_init(fnc1, reader_programming) == Ok::<SegmentState, DataEncodingError>(
        (codewords@, None, fnc1_second_pending)));
    let ghost init = (codewords@, None::<u8>, fnc1_second_pending);

    // Consecutive Data segments form one ASCII stream: a digit left over at
    // the end of one can pair with the first digit of the next.
    let mut pending_digit: Option<u8> = None;
    let mut k: usize = 0;
    while k < segments.len()
        invariant
            k <= segments@.len(),
            segments_init(fnc1, reader_programming) == Ok::<SegmentState, DataEncodingError>(init),
            segments_run(segments@.take(k as int), init) == Ok::<SegmentState, DataEncodingError>(
                (codewords@, pending_digit, fnc1_second_pending)),
            pending_digit matches Some(d) ==> is_digit(d),
            symbol_list@.len() != 0,
        decreases segments@.len() - k,
    {
        proof {
            assert(segments@.take(k + 1).drop_last() =~= segments@.take(k as int));
        }
        let ghost st = (codewords@, pending_digit, fnc1_second_pending);
        match segments[k] {
            DataMatrixSegment::Data(bytes) => {
                if bytes.len() > 0 {
                    let mut rest: &[u8] = bytes;
                    if fnc1_second_pending {
                        let consumed = match write_first_ascii_codeword(bytes, &mut codewords) {
                            Ok(n) => n,
                            Err(e) => {
                                proof {
                                    assert(segments_run(segments@.take(k + 1), init) == segment_step(st, segments@[k as int]));
                                    lemma_segments_error(segments@, init, k as int);
                                }
                                return Err(e);
                            },
                        };
                        rest = slice_from(bytes, consumed);
                        codewords.push(FNC1);
                        fnc1_second_pending = false;
                    }
                    let ghost c1 = codewords@;
                    let ghost b1 = rest@;
                    if pending_digit.is_some() {
                        let digit = pending_digit.unwrap();
                        pending_digit = None;
                        if rest.len() > 0 && 48 <= rest[0] && rest[0] <= 57 {
                            codewords.push((digit - 48) * 10 + (rest[0] - 48) + 130);
                            rest = slice_from(rest, 1);
                        } else {
                            codewords.push(digit + 1);
                        }
                    }
                    pending_digit = write_ascii_codewords(rest, &mut codewords);
                    proof { lemma_pending_is_digit(rest@); }
                }
            },
            DataMatrixSegment::Eci(eci) => {
                if fnc1_second_pending {
                    proof {
                        assert(segments_run(segments@.take(k + 1), init) == segment_step(st, segments@[k as int]));
                        lemma_segments_error(segments@, init, k as int);
                    }
                    return Err(DataEncodingError::InvalidControlPosition(
                        "ikinci konumdaki FNC1'den önce ECI kullanılamaz",
                    ));
                }
                flush_pending_digit(&mut pending_digit, &mut codewords);
                match write_eci_codewords(&mut codewords, eci) {
                    Ok(()) => {},
                    Err(e) => {
                        proof {
                            assert(segments_run(segments@.take(k + 1), init) == segment_step(st, segments@[k as int]));
                            lemma_segments_error(segments@, init, k as int);
                        }
                        return Err(e);
                    },
                }
            },
            DataMatrixSegment::Fnc1 => {
                if fnc1_second_pending {
                    proof {
                        assert(segments_run(segments@.take(k + 1), init) == segment_step(st, segments@[k as int]));
                        lemma_segments_error(segments@, init, k as int);
                    }
                    return Err(DataEncodingError::InvalidControlPosition(
                        "ikinci konumdaki FNC1 için önce bir ASCII data codeword gerekir",
                    ));
                }
                flush_pending_digit(&mut pending_digit, &mut codewords);
                codewords.push(FNC1);
            },
            DataMatrixSegment::ReaderProgramming => {
                flush_pending_digit(&mut pending_digit, &mut codewords);
                if fnc1_second_pending || codewords.len() > 0 {
                    proof {
                        assert(segments_run(segments@.take(k + 1), init) == segment_step(st, segments@[k as int]));
                        lemma_segments_error(segments@, init, k as int);
                    }
                    return Err(DataEncodingError::InvalidControlPosition("Reader Programming ilk codeword olmalıdır"));
                }
                codewords.push(READER_PROGRAMMING);
            },
        }
        proof {
            assert(segments_run(segments@.take(k + 1), init) == segment_step(st, segments@[k as int]));
        }
        k += 1;
    }
    assert(segments@.take(segments@.len() as int) =~= segments@);
    if fnc1_second_pending {
        return Err(DataEncodingError::InvalidControlPosition(
            "ikinci konumdaki FNC1 için bir ASCII data codeword gerekir",
        ));
    }
    flush_pending_digit(&mut pending_digit, &mut codewords);
    pad_ascii_codewords(codewords, symbol_list)
}

/// The bytes of `data` from `start` on.
fn slice_from(data: &[u8], start: usize) -> (r: &[u8])
    requires
        start <= data@.len(),
    ensures
        r@ == data@.skip(start as int),
{
    let r = vstd::slice::slice_subrange(data, start, data.len());
    assert(r@ =~= data@.skip(start as int));
    r
}

/// Writes out the digit that was kept back, if any.
fn flush_pending_digit(pending_digit: &mut Option<u8>, codewords: &mut Vec<u8>)
    requires
        *old(pending_digit) matches Some(d) ==> is_digit(d),
    ensures
        *final(pending_digit) == None::<u8>,
        final(codewords)@ == spec_flush(old(codewords)@, *old(pending_digit)),
{
    if let Some(digit) = *pending_digit {
        codewords.push(digit + 1);
    }
    *pending_digit = None;
}

/// Writes the single ASCII codeword in front of `data` and returns the
/// number of bytes it stands for.
///
/// # Errors
///
/// Fails when the data does not start with a digit pair or a byte up to 127.
fn write_first_ascii_codeword(data: &[u8], codewords: &mut Vec<u8>) -> (r: Result<usize, DataEncodingError>)
    ensures
        match spec_first_ascii(data@) {
            Some((cw, n)) => r == Ok::<usize, DataEncodingError>(n as usize) && final(codewords)@ == old(codewords)@.push(cw),
            None => r == Err::<usize, DataEncodingError>(DataEncodingError::InvalidControlPosition(
                "ikinci konumdaki FNC1 öncesindeki veri tek ASCII codeword olmalıdır",
            )) && final(codewords)@ == old(codewords)@,
        },
{
    if data.len() >= 2 && 48 <= data[0] && data[0] <= 57 && 48 <= data[1] && data[1] <= 57 {
        codewords.push((data[0] - 48) * 10 + (data[1] - 48) + 130);
        Ok(2)
    } else if data.len() >= 1 && data[0] <= 127 {
        codewords.push(data[0] + 1);
        Ok(1)
    } else {
        Err(DataEncodingError::InvalidControlPosition(
            "ikinci konumdaki FNC1 öncesindeki veri tek ASCII codeword olmalıdır",
        ))
    }
}

/// Writes the ASCII codewords of `data`. A single digit at the end is not
/// written but returned, so that it can pair with the next `Data` segment.
fn write_ascii_codewords(data: &[u8], codewords: &mut Vec<u8>) -> (r: Option<u8>)
    ensures
        final(codewords)@ == old(codewords)@ + spec_ascii_codewords(data@).0,
        r == spec_ascii_codewords(data@).1,
{
    let mut i: usize = 0;
    let n = data.len();
    assert(data@.skip(0) =~= data@);
    while i < n
        invariant
            n == data@.len(),
            i <= n,
            codewords@ + spec_ascii_codewords(data@.skip(i as int)).0 == old(codewords)@ + spec_ascii_codewords(data@).0,
            spec_ascii_codewords(data@.skip(i as int)).1 == spec_ascii_codewords(data@).1,
        decreases n - i,
    {
        let ghost rest = data@.skip(i as int);
        let ghost before = codewords@;
        if i + 1 < n && 48 <= data[i] && data[i] <= 57 && 48 <= data[i + 1] && data[i + 1] <= 57 {
            codewords.push((data[i] - 48) * 10 + (data[i + 1] - 48) + 130);
            proof {
                assert(rest.skip(2) =~= data@.skip(i + 2));
                let r2 = spec_ascii_codewords(rest.skip(2));
                assert(codewords@ + r2.0 =~= before + (seq![digit_pair(rest[0], rest[1])] + r2.0));
            }
            i += 2;
        } else if i + 1 == n && 48 <= data[i] && data[i] <= 57 {
            proof {
                assert(spec_ascii_codewords(rest).0 =~= Seq::<u8>::empty());
                assert(codewords@ =~= codewords@ + Seq::<u8>::empty());
            }
            return Some(data[i]);
        } else if data[i] <= 127 {
            codewords.push(data[i] + 1);
            proof {
                assert(rest.skip(1) =~= data@.skip(i + 1));
                let r1 = spec_ascii_codewords(rest.skip(1));
                assert(codewords@ + r1.0 =~= before + (seq![(rest[0] + 1) as u8] + r1.0));
            }
            i += 1;
        } else {
            codewords.push(UPPER_SHIFT);
            codewords.push(data[i] - 127);
            proof {
                assert(rest.skip(1) =~= data@.skip(i + 1));
                let r1 = spec_ascii_codewords(rest.skip(1));
                assert(codewords@ + r1.0 =~= before + (seq![UPPER_SHIFT, (rest[0] - 127) as u8] + r1.0));
            }
            i += 1;
        }
    }
    proof {
        assert(data@.skip(i as int) =~= Seq::<u8>::empty());
        assert(codewords@ =~= codewords@ + Seq::<u8>::empty());
    }
    None
}

/// Pads the codewords for the first size of the list that holds them.
///
/// # Errors
///
/// Fails with [DataEncodingError::TooMuchOrIllegalData] when no size of the
/// list holds the codewords.
fn pad_ascii_codewords(codewords: Vec<u8>, symbol_list: &SymbolList) -> (r: Result<(Vec<u8>, SymbolSize), DataEncodingError>)
    ensures
        match spec_pad(codewords@, symbol_list@) {
            Err(e) => r == Err::<(Vec<u8>, SymbolSize), DataEncodingError>(e),
            Ok((cw, size)) => r matches Ok((v, s)) && v@ == cw && s == size,
        },
{
    let size = match symbol_list.first_symbol_big_enough_for(codewords.len()) {
        Some(s) => s,
        None => return Err(DataEncodingError::TooMuchOrIllegalData),
    };
    proof {
        crate::symbol_size::lemma_first_fit_in(symbol_list@, codewords@.len() as int);
        size.lemma_table_consistent();
    }
    let mut codewords = codewords;
    let ghost c = codewords@;
    let total = size.num_data_codewords();
    if codewords.len() < total {
        codewords.push(PAD);
        while codewords.len() < total
            invariant
                c.len() < total,
                total <= 1558,
                c.len() + 1 <= codewords@.len() <= total,
                codewords@ == c.push(PAD) + Seq::new((codewords@.len() - c.len() - 1) as nat,
                    |k: int| spec_pad_codeword(c.len() + 2 + k)),
            decreases total - codewords@.len(),
        {
            let pos = codewords.len() + 1;
            let pseudo_random: u16 = ((149 * pos) % 253 + 1) as u16;
            let randomized: u16 = PAD as u16 + pseudo_random;
            let v: u8 = if randomized <= 254 { randomized as u8 } else { (randomized - 254) as u8 };
            let ghost before = codewords@;
            codewords.push(v);
            proof {
                assert(codewords@ =~= c.push(PAD) + Seq::new((codewords@.len() - c.len() - 1) as nat,
                    |k: int| spec_pad_codeword(c.len() + 2 + k)));
            }
        }
    }
    Ok((codewords, size))
}

/// Converts a UTF-8 string to Latin-1, if all of its characters are in Latin-1.
pub fn utf8_to_latin1(s: &str) -> (r: Option<Vec<u8>>)
    ensures
        (forall|k: int| 0 <= k < s@.len() ==> (#[trigger] s@[k] as u32) <= 255) ==> (r matches Some(v)
            && v@ == s@.map_values(|c: char| (c as u32) as u8)),
        !(forall|k: int| 0 <= k < s@.len() ==> (#[trigger] s@[k] as u32) <= 255) ==> r is None,
{
    let chars = string_chars(s);
    let mut out: Vec<u8> = Vec::with_capacity(chars.len());
    let mut k: usize = 0;
    while k < chars.len()
        invariant
            chars@ == s@,
            k <= chars@.len(),
            out@ == s@.take(k as int).map_values(|c: char| (c as u32) as u8),
            forall|q: int| 0 <= q < k ==> (#[trigger] s@[q] as u32) <= 255,
        decreases chars@.len() - k,
    {
        let c = chars[k];
        let v = c as u32;
        if v > 255 {
            return None;
        }
        out.push(v as u8);
        k += 1;
        assert(out@ =~= s@.take(k as int).map_values(|c: char| (c as u32) as u8));
    }
    assert(s@.take(s@.len() as int) =~= s@);
    Some(out)
}

/// The characters of a string.
fn string_chars(s: &str) -> (r: Vec<char>)
    ensures
        r@ == s@,
{
    let n = s.unicode_len();
    let mut out: Vec<char> = Vec::with_capacity(n);
    let mut k: usize = 0;
    while k < n
        invariant
            n == s@.len(),
            k <= n,
            out@ == s@.take(k as int),
        decreases n - k,
    {
        out.push(s.get_char(k));
        k += 1;
        assert(out@ =~= s@.take(k as int));
    }
    assert(s@.take(n as int) =~= s@);
    out
}

/// Converts a Latin-1 string to a UTF-8 string.
///
/// Every byte value is valid in ISO/IEC 8859-1, C0 and C1 control
/// characters included; the result is an `Option` only for consistency.
pub fn latin1_to_utf8(latin1: &[u8]) -> (r: Option<String>)
    ensures
        r matches Some(s) && s@ == latin1@.map_values(|b: u8| b as char),
{
    let mut out = String::new();
    latin1_to_utf8_mut(latin1, &mut out);
    Some(out)
}

/// Appends the characters of Latin-1 bytes to `out`.
fn latin1_to_utf8_mut(latin1: &[u8], out: &mut String)
    ensures
        final(out)@ == old(out)@ + latin1@.map_values(|b: u8| b as char),
{
    let mut k: usize = 0;
    while k < latin1.len()
        invariant
            k <= latin1@.len(),
            out@ == old(out)@ + latin1@.take(k as int).map_values(|b: u8| b as char),
        decreases latin1@.len() - k,
    {
        string_push(out, latin1[k] as char);
        k += 1;
        assert(out@ =~= old(out)@ + latin1@.take(k as int).map_values(|b: u8| b as char));
    }
    assert(latin1@.take(latin1@.len() as int) =~= latin1@);
}

// ---------------------------------------------------------------------------
// Decoding what the segment encoder writes.
// ---------------------------------------------------------------------------

/// The bytes of the `Data` segments in order, with the field separator 29
/// for each `Fnc1` segment.
pub open spec fn segments_data(segs: Seq<DataMatrixSegment>) -> Seq<u8>
    decreases segs.len(),
{
    if segs.len() == 0 {
        seq![]
    } else {
        segments_data(segs.drop_last()) + match segs.last() {
            DataMatrixSegment::Data(bytes) => bytes@,
            DataMatrixSegment::Fnc1 => seq![29u8],
            _ => Seq::<u8>::empty(),
        }
    }
}

/// The ECI spans of the segments: for each `Eci` segment, the number of data
/// bytes before it and its assignment number.
pub open spec fn segments_ecis(segs: Seq<DataMatrixSegment>) -> Seq<(usize, u32)>
    decreases segs.len(),
{
    if segs.len() == 0 {
        seq![]
    } else {
        match segs.last() {
            DataMatrixSegment::Eci(eci) => segments_ecis(segs.drop_last()).push(
                (segments_data(segs.drop_last()).len() as usize, eci),
            ),
            _ => segments_ecis(segs.drop_last()),
        }
    }
}

/// Whether every segment is a `Data` segment.
pub open spec fn only_data(segs: Seq<DataMatrixSegment>) -> bool {
    forall|i: int| 0 <= i < segs.len() ==> #[trigger] segs[i] is Data
}

/// Whether every segment is a `Data` segment, an `Eci` segment with an
/// assignment number up to 999999, or an `Fnc1` segment after at least two
/// codewords (so that it separates fields rather than flags the format).
pub open spec fn decodable_segments(segs: Seq<DataMatrixSegment>) -> bool {
    forall|i: int| 0 <= i < segs.len() ==> #[trigger] decodable_segment(segs, i)
}

/// Whether segment `i` of `segs` is one that [decodable_segments] allows.
pub open spec fn decodable_segment(segs: Seq<DataMatrixSegment>, i: int) -> bool {
    ||| segs[i] is Data
    ||| segs[i] matches DataMatrixSegment::Eci(e) && e <= 999999
    ||| segs[i] is Fnc1 && (segments_run(segs.take(i), (seq![], None, false)) matches Ok((c, p, _f))
        && spec_flush(c, p).len() >= 2)
}

/// The first item of ASCII codewords of data, field separators and ECI,
/// where the first codeword is codeword `at` of the symbol: the number of
/// codewords it takes, its bytes (a byte up to 127, a digit pair, an
/// upper-shifted byte, or 29 for an FNC1 from the third codeword on) and its
/// ECI assignment number; `None` for any other codeword.
spec fn ctl_head(c: Seq<u8>, at: int) -> Option<(int, Seq<u8>, Option<u32>)> {
    if c.len() == 0 {
        None
    } else if 1 <= c[0] <= 128 {
        Some((1, seq![(c[0] - 1) as u8], None))
    } else if 130 <= c[0] <= 229 {
        Some((1, seq![(48 + (c[0] - 130) / 10) as u8, (48 + (c[0] - 130) % 10) as u8], None))
    } else if c[0] == UPPER_SHIFT && c.len() >= 2 && 1 <= c[1] <= 128 {
        Some((2, seq![(c[1] + 127) as u8], None))
    } else if c[0] == FNC1 && at >= 2 {
        Some((1, seq![29u8], None))
    } else if c[0] == ECI {
        match spec_read_eci(c, 1) {
            Ok((p, eci)) => if 1 < p <= c.len() {
                Some((p, Seq::<u8>::empty(), Some(eci)))
            } else {
                None
            },
            Err(_) => None,
        }
    } else {
        None
    }
}

/// The ECI span of an item whose output starts at `base`.
spec fn eci_span(eci: Option<u32>, base: int) -> Seq<(usize, u32)> {
    match eci {
        Some(e) => seq![(base as usize, e)],
        None => seq![],
    }
}

/// What ASCII codewords of data, field separators and ECI stand for, from
/// codeword `at` of the symbol on, with the output starting at `base` bytes:
/// the bytes and the ECI spans; `None` for any other codeword.
spec fn ctl_ascii(c: Seq<u8>, base: int, at: int) -> Option<(Seq<u8>, Seq<(usize, u32)>)>
    decreases c.len(),
{
    if c.len() == 0 {
        Some((seq![], seq![]))
    } else {
        match ctl_head(c, at) {
            Some((n, bytes, eci)) => if 1 <= n <= c.len() {
                match ctl_ascii(c.skip(n), base + bytes.len(), at + n) {
                    Some((x, e)) => Some((bytes + x, eci_span(eci, base) + e)),
                    None => None,
                }
            } else {
                None
            },
            None => None,
        }
    }
}

/// An ECI assignment number read inside `c` is read alike where `c` stands in `all`.
proof fn lemma_read_eci_in_place(c: Seq<u8>, all: Seq<u8>, pos: int)
    requires
        0 <= pos,
        pos + c.len() <= all.len(),
        all.subrange(pos, pos + c.len()) == c,
        spec_read_eci(c, 1) matches Ok((p, _e)) && p <= c.len(),
    ensures
        spec_read_eci(all, pos + 1) == (match spec_read_eci(c, 1) {
            Ok((p, e)) => Ok::<(int, u32), DataDecodingError>((pos + p, e)),
            Err(e) => Err(e),
        }),
{
    assert(all[pos + 1] == c[1]);
    if c.len() > 2 {
        assert(all[pos + 2] == c[2]);
    }
    if c.len() > 3 {
        assert(all[pos + 3] == c[3]);
    }
}

/// The first item of `a` is the first item of `a` followed by anything.
proof fn lemma_head_prefix(a: Seq<u8>, b: Seq<u8>, at: int)
    requires
        ctl_head(a, at) matches Some((n, _x, _e)) && n <= a.len(),
    ensures
        ctl_head(a + b, at) == ctl_head(a, at),
{
    assert((a + b)[0] == a[0]);
    if a.len() >= 2 {
        assert((a + b)[1] == a[1]);
    }
    if a[0] == ECI {
        assert((a + b).subrange(0, a.len() as int) =~= a);
        lemma_read_eci_in_place(a, a + b, 0);
    }
}

/// Data and ECI codewords decode piece by piece.
proof fn lemma_ctl_concat(a: Seq<u8>, b: Seq<u8>, base: int, at: int)
    requires
        ctl_ascii(a, base, at) is Some,
        ctl_ascii(b, base + ctl_ascii(a, base, at)->Some_0.0.len(), at + a.len()) is Some,
    ensures
        ctl_ascii(a + b, base, at) == Some((
            ctl_ascii(a, base, at)->Some_0.0 + ctl_ascii(b, base + ctl_ascii(a, base, at)->Some_0.0.len(), at
                + a.len())->Some_0.0,
            ctl_ascii(a, base, at)->Some_0.1 + ctl_ascii(b, base + ctl_ascii(a, base, at)->Some_0.0.len(), at
                + a.len())->Some_0.1,
        )),
    decreases a.len(),
{
    let (xa, ea) = ctl_ascii(a, base, at)->Some_0;
    let (xb, eb) = ctl_ascii(b, base + xa.len(), at + a.len())->Some_0;
    if a.len() == 0 {
        assert(a + b =~= b);
        assert(xa + xb =~= xb);
        assert(ea + eb =~= eb);
    } else {
        let (n, bytes, eci) = ctl_head(a, at)->Some_0;
        lemma_head_prefix(a, b, at);
        let (xr, er) = ctl_ascii(a.skip(n), base + bytes.len(), at + n)->Some_0;
        lemma_ctl_concat(a.skip(n), b, base + bytes.len(), at + n);
        assert((a + b).skip(n) =~= a.skip(n) + b);
        assert(bytes + (xr + xb) =~= (bytes + xr) + xb);
        assert(eci_span(eci, base) + (er + eb) =~= (eci_span(eci, base) + er) + eb);
    }
}

/// The ASCII decoder reads the first item of data and ECI codewords in place.
proof fn lemma_decode_head(
    all: Seq<u8>,
    pos: int,
    c: Seq<u8>,
    out: Seq<u8>,
    ecis: Seq<(usize, u32)>,
    fnc1: Option<Fnc1Position>,
)
    requires
        0 <= pos,
        pos + c.len() <= all.len(),
        all.subrange(pos, pos + c.len()) == c,
        ctl_head(c, pos) matches Some((n, _x, _e)) && 1 <= n <= c.len(),
    ensures
        spec_ascii(all, pos, out, ecis, fnc1, false) == spec_ascii(
            all,
            pos + ctl_head(c, pos)->Some_0.0,
            out + ctl_head(c, pos)->Some_0.1,
            ecis + eci_span(ctl_head(c, pos)->Some_0.2, out.len() as int),
            fnc1,
            false,
        ),
{
    reveal(spec_ascii_step);
    let (n, bytes, eci) = ctl_head(c, pos)->Some_0;
    assert(all[pos] == c[0]);
    let ch = c[0];
    if 1 <= ch <= 128 {
        assert(out.push((ch - 1) as u8) =~= out + bytes);
        assert(ecis + eci_span(eci, out.len() as int) =~= ecis);
    } else if 130 <= ch <= 229 {
        let digit = ch - 130;
        assert(out.push((48 + digit / 10) as u8).push((48 + digit % 10) as u8) =~= out + bytes);
        assert(ecis + eci_span(eci, out.len() as int) =~= ecis);
    } else if ch == UPPER_SHIFT {
        assert(all[pos + 1] == c[1]);
        let o = out.push((c[1] + 127) as u8);
        assert(spec_ascii(all, pos, out, ecis, fnc1, false) == spec_ascii(all, pos + 1, out, ecis, fnc1, true));
        assert(o =~= out + bytes);
        assert(ecis + eci_span(eci, out.len() as int) =~= ecis);
    } else if ch == FNC1 {
        assert(out.push(29u8) =~= out + bytes);
        assert(ecis + eci_span(eci, out.len() as int) =~= ecis);
    } else {
        lemma_read_eci_in_place(c, all, pos);
        assert(out + bytes =~= out);
        assert(ecis.push((out.len() as usize, eci->Some_0)) =~= ecis + eci_span(eci, out.len() as int));
    }
}

/// The ASCII decoder reads data and ECI codewords in place as their bytes and spans.
proof fn lemma_decode_ctl(
    all: Seq<u8>,
    pos: int,
    c: Seq<u8>,
    out: Seq<u8>,
    ecis: Seq<(usize, u32)>,
    fnc1: Option<Fnc1Position>,
)
    requires
        0 <= pos,
        pos + c.len() <= all.len(),
        all.subrange(pos, pos + c.len()) == c,
        ctl_ascii(c, out.len() as int, pos) is Some,
    ensures
        spec_ascii(all, pos, out, ecis, fnc1, false) == spec_ascii(
            all,
            pos + c.len(),
            out + ctl_ascii(c, out.len() as int, pos)->Some_0.0,
            ecis + ctl_ascii(c, out.len() as int, pos)->Some_0.1,
            fnc1,
            false,
        ),
    decreases c.len(),
{
    let (x, e) = ctl_ascii(c, out.len() as int, pos)->Some_0;
    if c.len() == 0 {
        assert(out + x =~= out);
        assert(ecis + e =~= ecis);
    } else {
        let (n, bytes, eci) = ctl_head(c, pos)->Some_0;
        lemma_decode_head(all, pos, c, out, ecis, fnc1);
        let o = out + bytes;
        let es = ecis + eci_span(eci, out.len() as int);
        assert(c.skip(n) =~= all.subrange(pos + n, pos + c.len()));
        lemma_decode_ctl(all, pos + n, c.skip(n), o, es, fnc1);
        let (xr, er) = ctl_ascii(c.skip(n), o.len() as int, pos + n)->Some_0;
        assert(o + xr =~= out + x);
        assert(es + er =~= ecis + e);
    }
}

/// A kept back digit as bytes.
spec fn pending_bytes(p: Option<u8>) -> Seq<u8> {
    match p {
        Some(d) => seq![d],
        None => seq![],
    }
}

/// A digit pair decodes to its two digits.
proof fn lemma_digit_pair(a: u8, b: u8, base: int, at: int)
    requires
        is_digit(a),
        is_digit(b),
    ensures
        ctl_ascii(seq![digit_pair(a, b)], base, at) == Some((seq![a, b], Seq::<(usize, u32)>::empty())),
{
    let x = (a - 48) as int;
    let y = (b - 48) as int;
    assert((10 * x + y) / 10 == x && (10 * x + y) % 10 == y) by (nonlinear_arith)
        requires
            0 <= x <= 9,
            0 <= y <= 9,
    ;
    let c = seq![digit_pair(a, b)];
    assert(c.skip(1) =~= Seq::<u8>::empty());
    assert(ctl_ascii(c.skip(1), base + 2, at + 1) == Some((Seq::<u8>::empty(), Seq::<(usize, u32)>::empty())));
    assert(seq![(48 + (c[0] - 130) / 10) as u8, (48 + (c[0] - 130) % 10) as u8] + Seq::<u8>::empty() =~= seq![a, b]);
}

/// A byte up to 127 decodes from its single codeword.
proof fn lemma_single(b: u8, base: int, at: int)
    requires
        b <= 127,
    ensures
        ctl_ascii(seq![(b + 1) as u8], base, at) == Some((seq![b], Seq::<(usize, u32)>::empty())),
{
    let c = seq![(b + 1) as u8];
    assert(c.skip(1) =~= Seq::<u8>::empty());
    assert(ctl_ascii(c.skip(1), base + 1, at + 1) == Some((Seq::<u8>::empty(), Seq::<(usize, u32)>::empty())));
    assert(seq![(c[0] - 1) as u8] + Seq::<u8>::empty() =~= seq![b]);
}

/// An FNC1 from the third codeword on decodes to the field separator.
proof fn lemma_separator(base: int, at: int)
    requires
        at >= 2,
    ensures
        ctl_ascii(seq![FNC1], base, at) == Some((seq![29u8], Seq::<(usize, u32)>::empty())),
{
    let c = seq![FNC1];
    assert(c.skip(1) =~= Seq::<u8>::empty());
    assert(ctl_ascii(c.skip(1), base + 1, at + 1) == Some((Seq::<u8>::empty(), Seq::<(usize, u32)>::empty())));
    assert(seq![29u8] + Seq::<u8>::empty() =~= seq![29u8]);
}

/// The ECI codeword and the codewords of an assignment number decode to its span.
proof fn lemma_eci_span(eci: u32, base: int, at: int)
    requires
        eci <= 999999,
    ensures
        ctl_ascii(seq![ECI] + spec_eci_codewords(eci), base, at) == Some((
            Seq::<u8>::empty(),
            seq![(base as usize, eci)],
        )),
{
    let c = seq![ECI] + spec_eci_codewords(eci);
    let n = spec_eci_codewords(eci).len();
    assert(c.subrange(1, 1 + n as int) =~= spec_eci_codewords(eci));
    crate::decodation::modes::lemma_eci_round_trip(c, 1, eci);
    assert(c.skip(1 + n as int) =~= Seq::<u8>::empty());
    assert(ctl_ascii(c.skip(1 + n as int), base, at + 1 + n) == Some((Seq::<u8>::empty(), Seq::<(usize, u32)>::empty())));
    assert(seq![(base as usize, eci)] + Seq::<(usize, u32)>::empty() =~= seq![(base as usize, eci)]);
}

/// The ASCII codewords of `d` decode to `d` without its kept back digit, and to no span.
#[verifier::rlimit(40)]
proof fn lemma_ascii_codewords_decode(d: Seq<u8>, base: int, at: int)
    ensures
        ctl_ascii(spec_ascii_codewords(d).0, base, at) is Some,
        ctl_ascii(spec_ascii_codewords(d).0, base, at)->Some_0.0 + pending_bytes(spec_ascii_codewords(d).1) == d,
        ctl_ascii(spec_ascii_codewords(d).0, base, at)->Some_0.1 == Seq::<(usize, u32)>::empty(),
    decreases d.len(),
{
    if d.len() == 0 {
        assert(Seq::<u8>::empty() + Seq::<u8>::empty() =~= d);
    } else if d.len() >= 2 && is_digit(d[0]) && is_digit(d[1]) {
        let r = spec_ascii_codewords(d.skip(2));
        lemma_ascii_codewords_decode(d.skip(2), base + 2, at + 1);
        lemma_digit_pair(d[0], d[1], base, at);
        lemma_ctl_concat(seq![digit_pair(d[0], d[1])], r.0, base, at);
        let x = ctl_ascii(r.0, base + 2, at + 1)->Some_0.0;
        assert(seq![d[0], d[1]] + x + pending_bytes(r.1) =~= seq![d[0], d[1]] + (x + pending_bytes(r.1)));
        assert(seq![d[0], d[1]] + d.skip(2) =~= d);
        assert(Seq::<(usize, u32)>::empty() + Seq::<(usize, u32)>::empty() =~= Seq::<(usize, u32)>::empty());
    } else if d.len() == 1 && is_digit(d[0]) {
        assert(Seq::<u8>::empty() + seq![d[0]] =~= d);
    } else if d[0] <= 127 {
        let r = spec_ascii_codewords(d.skip(1));
        lemma_ascii_codewords_decode(d.skip(1), base + 1, at + 1);
        lemma_single(d[0], base, at);
        lemma_ctl_concat(seq![(d[0] + 1) as u8], r.0, base, at);
        let x = ctl_ascii(r.0, base + 1, at + 1)->Some_0.0;
        assert(seq![d[0]] + x + pending_bytes(r.1) =~= seq![d[0]] + (x + pending_bytes(r.1)));
        assert(seq![d[0]] + d.skip(1) =~= d);
        assert(Seq::<(usize, u32)>::empty() + Seq::<(usize, u32)>::empty() =~= Seq::<(usize, u32)>::empty());
    } else {
        let r = spec_ascii_codewords(d.skip(1));
        lemma_ascii_codewords_decode(d.skip(1), base + 1, at + 2);
        let h = seq![UPPER_SHIFT, (d[0] - 127) as u8];
        assert(h.skip(2) =~= Seq::<u8>::empty());
        assert(ctl_ascii(h.skip(2), base + 1, at + 2) == Some((Seq::<u8>::empty(), Seq::<(usize, u32)>::empty())));
        assert(seq![(h[1] + 127) as u8] + Seq::<u8>::empty() =~= seq![d[0]]);
        lemma_ctl_concat(h, r.0, base, at);
        let x = ctl_ascii(r.0, base + 1, at + 2)->Some_0.0;
        assert(seq![d[0]] + x + pending_bytes(r.1) =~= seq![d[0]] + (x + pending_bytes(r.1)));
        assert(seq![d[0]] + d.skip(1) =~= d);
        assert(Seq::<(usize, u32)>::empty() + Seq::<(usize, u32)>::empty() =~= Seq::<(usize, u32)>::empty());
    }
}

/// The state `(c, p)` of the segment encoder stands for the bytes `data` and
/// the ECI spans `ecis`.
spec fn state_decodes(c: Seq<u8>, p: Option<u8>, data: Seq<u8>, ecis: Seq<(usize, u32)>) -> bool {
    &&& ctl_ascii(c, 0, 0) is Some
    &&& ctl_ascii(c, 0, 0)->Some_0.0 + pending_bytes(p) == data
    &&& ctl_ascii(c, 0, 0)->Some_0.1 == ecis
    &&& (p matches Some(d) ==> is_digit(d))
}

/// A kept back digit written out keeps the state decodable.
proof fn lemma_flush(c: Seq<u8>, p: Option<u8>, data: Seq<u8>, ecis: Seq<(usize, u32)>)
    requires
        state_decodes(c, p, data, ecis),
    ensures
        state_decodes(spec_flush(c, p), None, data, ecis),
{
    let (x, e) = ctl_ascii(c, 0, 0)->Some_0;
    match p {
        Some(d) => {
            lemma_single(d, x.len() as int, c.len() as int);
            lemma_ctl_concat(c, seq![(d + 1) as u8], 0, 0);
            assert(c + seq![(d + 1) as u8] =~= spec_flush(c, p));
            assert(e + Seq::<(usize, u32)>::empty() =~= e);
            assert(x + seq![d] + Seq::<u8>::empty() =~= x + seq![d]);
        },
        None => {
            assert(x + Seq::<u8>::empty() =~= x);
        },
    }
}

/// A `Data` segment keeps the encoder state decodable.
#[verifier::spinoff_prover]
#[verifier::rlimit(40)]
proof fn lemma_data_step(c: Seq<u8>, p: Option<u8>, bytes: Seq<u8>, data: Seq<u8>, ecis: Seq<(usize, u32)>)
    requires
        state_decodes(c, p, data, ecis),
    ensures
        data_step((c, p, false), bytes) matches Ok((c2, p2, f2)) && !f2 && state_decodes(c2, p2, data + bytes, ecis),
{
    let (x, e) = ctl_ascii(c, 0, 0)->Some_0;
    if bytes.len() == 0 {
        assert(data + bytes =~= data);
    } else {
        let (c2, b2) = match p {
            Some(d) => if is_digit(bytes[0]) {
                (c.push(digit_pair(d, bytes[0])), bytes.skip(1))
            } else {
                (c.push((d + 1) as u8), bytes)
            },
            None => (c, bytes),
        };
        let (cw, np) = spec_ascii_codewords(b2);
        lemma_pending_is_digit(b2);
        match p {
            Some(d) => {
                if is_digit(bytes[0]) {
                    lemma_digit_pair(d, bytes[0], x.len() as int, c.len() as int);
                    lemma_ctl_concat(c, seq![digit_pair(d, bytes[0])], 0, 0);
                    assert(c + seq![digit_pair(d, bytes[0])] =~= c2);
                    assert(x + seq![d, bytes[0]] + b2 =~= x + seq![d] + bytes);
                } else {
                    lemma_single(d, x.len() as int, c.len() as int);
                    lemma_ctl_concat(c, seq![(d + 1) as u8], 0, 0);
                    assert(c + seq![(d + 1) as u8] =~= c2);
                    assert(x + seq![d] + b2 =~= x + seq![d] + bytes);
                }
                assert(e + Seq::<(usize, u32)>::empty() =~= e);
            },
            None => {
                assert(x + b2 =~= x + Seq::<u8>::empty() + bytes);
            },
        }
        let (x2, e2) = ctl_ascii(c2, 0, 0)->Some_0;
        lemma_ascii_codewords_decode(b2, x2.len() as int, c2.len() as int);
        lemma_ctl_concat(c2, cw, 0, 0);
        let y = ctl_ascii(cw, x2.len() as int, c2.len() as int)->Some_0.0;
        assert(x2 + y + pending_bytes(np) =~= x2 + (y + pending_bytes(np)));
        assert(e2 + Seq::<(usize, u32)>::empty() =~= e2);
    }
}

/// An `Eci` segment with an assignment number up to 999999 keeps the encoder
/// state decodable and adds its span.
proof fn lemma_eci_step(c: Seq<u8>, p: Option<u8>, eci: u32, data: Seq<u8>, ecis: Seq<(usize, u32)>)
    requires
        state_decodes(c, p, data, ecis),
        eci <= 999999,
    ensures
        segment_step((c, p, false), DataMatrixSegment::Eci(eci)) matches Ok((c2, p2, f2)) && !f2
            && state_decodes(c2, p2, data, ecis.push((data.len() as usize, eci))),
{
    let fl = spec_flush(c, p);
    lemma_flush(c, p, data, ecis);
    let (xf, ef) = ctl_ascii(fl, 0, 0)->Some_0;
    assert(xf + Seq::<u8>::empty() =~= xf);
    lemma_eci_span(eci, xf.len() as int, fl.len() as int);
    let tail = seq![ECI] + spec_eci_codewords(eci);
    lemma_ctl_concat(fl, tail, 0, 0);
    assert(fl.push(ECI) + spec_eci_codewords(eci) =~= fl + tail);
    assert(xf + Seq::<u8>::empty() + Seq::<u8>::empty() =~= data);
    assert(ef + seq![(xf.len() as usize, eci)] =~= ecis.push((data.len() as usize, eci)));
}

/// An `Fnc1` segment after at least two codewords keeps the encoder state
/// decodable and adds the field separator.
proof fn lemma_fnc1_step(c: Seq<u8>, p: Option<u8>, data: Seq<u8>, ecis: Seq<(usize, u32)>)
    requires
        state_decodes(c, p, data, ecis),
        spec_flush(c, p).len() >= 2,
    ensures
        segment_step((c, p, false), DataMatrixSegment::Fnc1) matches Ok((c2, p2, f2)) && !f2
            && state_decodes(c2, p2, data + seq![29u8], ecis),
{
    let fl = spec_flush(c, p);
    lemma_flush(c, p, data, ecis);
    let (xf, ef) = ctl_ascii(fl, 0, 0)->Some_0;
    assert(xf + Seq::<u8>::empty() =~= xf);
    lemma_separator(xf.len() as int, fl.len() as int);
    lemma_ctl_concat(fl, seq![FNC1], 0, 0);
    assert(fl + seq![FNC1] =~= fl.push(FNC1));
    assert(ef + Seq::<(usize, u32)>::empty() =~= ecis);
    assert(xf + seq![29u8] + Seq::<u8>::empty() =~= data + seq![29u8]);
}

/// The decodable segments never fail, and what they write decodes to their
/// bytes, but for a kept back digit, and to their ECI spans.
proof fn lemma_segments_run(segs: Seq<DataMatrixSegment>)
    requires
        decodable_segments(segs),
    ensures
        segments_run(segs, (seq![], None, false)) matches Ok((c, p, f)) && !f
            && state_decodes(c, p, segments_data(segs), segments_ecis(segs)),
    decreases segs.len(),
{
    if segs.len() == 0 {
        assert(Seq::<u8>::empty() + Seq::<u8>::empty() =~= Seq::<u8>::empty());
    } else {
        let prev = segs.drop_last();
        assert forall|i: int| 0 <= i < prev.len() implies #[trigger] decodable_segment(prev, i) by {
            assert(prev[i] == segs[i]);
            assert(prev.take(i) =~= segs.take(i));
            assert(decodable_segment(segs, i));
        }
        lemma_segments_run(prev);
        let (c, p, f) = segments_run(prev, (seq![], None, false))->Ok_0;
        let last = segs[segs.len() - 1];
        assert(last == segs.last());
        assert(decodable_segment(segs, segs.len() - 1));
        match last {
            DataMatrixSegment::Data(bs) => {
                lemma_data_step(c, p, bs@, segments_data(prev), segments_ecis(prev));
            },
            DataMatrixSegment::Eci(eci) => {
                lemma_eci_step(c, p, eci, segments_data(prev), segments_ecis(prev));
                assert(segments_data(segs) =~= segments_data(prev));
            },
            DataMatrixSegment::Fnc1 => {
                assert(segs.take(segs.len() - 1) =~= prev);
                lemma_fnc1_step(c, p, segments_data(prev), segments_ecis(prev));
            },
            DataMatrixSegment::ReaderProgramming => {
                assert(false);
            },
        }
    }
}

/// Without `Eci` or `Fnc1` segments there is no ECI span, and the segments are decodable.
proof fn lemma_no_eci_spans(segs: Seq<DataMatrixSegment>)
    requires
        only_data(segs),
    ensures
        segments_ecis(segs) == Seq::<(usize, u32)>::empty(),
        decodable_segments(segs),
    decreases segs.len(),
{
    if segs.len() > 0 {
        let prev = segs.drop_last();
        assert forall|i: int| 0 <= i < prev.len() implies #[trigger] prev[i] is Data by {
            assert(prev[i] == segs[i]);
        }
        lemma_no_eci_spans(prev);
        assert(segs[segs.len() - 1] is Data);
    }
    assert forall|i: int| 0 <= i < segs.len() implies #[trigger] decodable_segment(segs, i) by {
        assert(segs[i] is Data);
    }
}

/// The randomized padding codeword at a position is read back as padding there.
proof fn lemma_pad_codeword(pos: int)
    requires
        pos >= 0,
    ensures
        spec_derandomize_253(spec_pad_codeword(pos), pos) == PAD,
{
}

/// The codewords after the first padding codeword are all padding.
proof fn lemma_pad_check(c: Seq<u8>, n: int, q: int)
    requires
        c.len() + 1 <= q <= n,
    ensures
        spec_pad_check(spec_padded(c, n), q) == Ok::<(), DataDecodingError>(()),
    decreases n - q,
{
    let d = spec_padded(c, n);
    if q < n {
        assert(d[q] == spec_pad_codeword(q + 1));
        lemma_pad_codeword(q + 1);
        lemma_pad_check(c, n, q + 1);
    }
}

/// Data and ECI codewords, padded to any length, decode to their bytes and spans.
proof fn lemma_decode_padded(c: Seq<u8>, n: int)
    requires
        ctl_ascii(c, 0, 0) is Some,
    ensures
        spec_decode_parts(spec_padded(c, n), true) == Ok::<
            (Seq<u8>, Seq<(usize, u32)>, Option<Fnc1Position>, bool),
            DataDecodingError,
        >((ctl_ascii(c, 0, 0)->Some_0.0, ctl_ascii(c, 0, 0)->Some_0.1, None, false)),
{
    reveal(spec_ascii_step);
    reveal(spec_mode);
    let d = spec_padded(c, n);
    let (x, e) = ctl_ascii(c, 0, 0)->Some_0;
    let none: Seq<(usize, u32)> = seq![];
    assert(d.subrange(0, c.len() as int) =~= c);
    lemma_decode_ctl(d, 0, c, seq![], none, None);
    assert(Seq::<u8>::empty() + x =~= x);
    assert(none + e =~= e);
    if n > c.len() {
        assert(d[c.len() as int] == PAD);
        lemma_pad_check(c, n, c.len() + 1int);
    }
    assert(spec_ascii(d, c.len() as int, x, e, None, false) == Ok::<
        (int, crate::encodation::EncodationType, Seq<u8>, Seq<(usize, u32)>, Option<Fnc1Position>),
        DataDecodingError,
    >((d.len() as int, crate::encodation::EncodationType::Ascii, x, e, None)));
    if d.len() > 0 {
        if c.len() > 0 {
            assert(d[0] == c[0]);
        }
        assert(d[0] != READER_PROGRAMMING);
        assert(spec_macro_version(d, false) is None);
        assert(spec_run(d, d.len() as int, crate::encodation::EncodationType::Ascii, x, e, None) == Ok::<
            (Seq<u8>, Seq<(usize, u32)>, Option<Fnc1Position>),
            DataDecodingError,
        >((x, e, None)));
    } else {
        assert(c.len() == 0);
    }
}

/// A message of [decodable segments](decodable_segments) is always encoded,
/// and decoding the data codewords of any symbol it is padded for gives back
/// the bytes of the `Data` segments in order with the field separator 29 for
/// each `Fnc1` segment, each ECI span at the number of bytes before its
/// segment, no FNC1 flag and no Reader Programming flag.
pub proof fn lemma_segments_round_trip(segs: Seq<DataMatrixSegment>, list: Seq<SymbolSize>)
    requires
        decodable_segments(segs),
    ensures
        spec_segment_codewords(segs, None, false) is Ok,
        spec_pad(spec_segment_codewords(segs, None, false)->Ok_0, list) matches Ok((cw, _size))
            ==> spec_decode_parts(cw, true) == Ok::<
            (Seq<u8>, Seq<(usize, u32)>, Option<Fnc1Position>, bool),
            DataDecodingError,
        >((segments_data(segs), segments_ecis(segs), None, false)),
{
    lemma_segments_run(segs);
    let (c, p, f) = segments_run(segs, (seq![], None, false))->Ok_0;
    lemma_flush(c, p, segments_data(segs), segments_ecis(segs));
    let all = spec_flush(c, p);
    let (x, e) = ctl_ascii(all, 0, 0)->Some_0;
    assert(x + Seq::<u8>::empty() =~= x);
    match spec_first_fit(list, all.len() as int) {
        Some(size) => lemma_decode_padded(all, size.spec_num_data_codewords()),
        None => {},
    }
}

/// A message of `Data` segments alone is always encoded, and decoding the
/// data codewords of any symbol it is padded for gives back the bytes of the
/// segments, in order.
pub proof fn lemma_data_segments_round_trip(segs: Seq<DataMatrixSegment>, list: Seq<SymbolSize>)
    requires
        only_data(segs),
    ensures
        spec_segment_codewords(segs, None, false) is Ok,
        spec_pad(spec_segment_codewords(segs, None, false)->Ok_0, list) matches Ok((cw, _size))
            ==> spec_decode_data(cw) == Ok::<Seq<u8>, DataDecodingError>(segments_data(segs)),
{
    lemma_no_eci_spans(segs);
    lemma_segments_round_trip(segs, list);
}

} // verus!

verus! {

/// A text written as its UTF-8 bytes under ECI 26 reads back as the text:
/// decoding to a string the data codewords of the message `Eci(26)`,
/// `Data(utf8 bytes of s)`, padded for any symbol, gives `s`.
pub proof fn lemma_utf8_text_round_trip(segs: Seq<DataMatrixSegment>, s: Seq<char>, list: Seq<SymbolSize>)
    requires
        segs.len() == 2,
        segs[0] == DataMatrixSegment::Eci(ECI_UTF8),
        segs[1] matches DataMatrixSegment::Data(b) && b@ == vstd::utf8::encode_utf8(s),
    ensures
        spec_segment_codewords(segs, None, false) is Ok,
        spec_pad(spec_segment_codewords(segs, None, false)->Ok_0, list) matches Ok((cw, _size))
            ==> crate::decodation::spec_decode_str(cw) == Ok::<Seq<char>, DataDecodingError>(s),
{
    let bytes = vstd::utf8::encode_utf8(s);
    assert(decodable_segment(segs, 0));
    assert(decodable_segment(segs, 1));
    assert(decodable_segments(segs));
    lemma_segments_round_trip(segs, list);
    let first = segs.drop_last();
    assert(first.drop_last() =~= Seq::<DataMatrixSegment>::empty());
    assert(first.last() == segs[0]);
    assert(first.len() == 1);
    assert(segments_data(first.drop_last()) =~= Seq::<u8>::empty());
    assert(segments_ecis(first.drop_last()) =~= Seq::<(usize, u32)>::empty());
    assert(segments_data(first) =~= Seq::<u8>::empty());
    assert(segments_data(segs) =~= bytes);
    assert(segments_ecis(first) =~= seq![(0usize, ECI_UTF8)]);
    assert(segments_ecis(segs) =~= seq![(0usize, ECI_UTF8)]);
    assert(segments_run(first.drop_last(), (seq![], None, false)) == Ok::<SegmentState, DataEncodingError>((seq![], None, false)));
    assert(spec_flush(seq![], None) =~= Seq::<u8>::empty());
    assert(Seq::<u8>::empty().push(ECI) =~= seq![ECI]);
    let st0 = segments_run(first, (seq![], None, false))->Ok_0;
    assert(st0.0 =~= seq![ECI] + spec_eci_codewords(ECI_UTF8));
    assert(st0.1 is None && !st0.2);
    let st1 = segments_run(segs, (seq![], None, false))->Ok_0;
    assert(st1.0[0] == ECI);
    let c = spec_segment_codewords(segs, None, false)->Ok_0;
    assert(c[0] == ECI);
    match spec_pad(c, list) {
        Ok((cw, _size)) => {
            assert(cw[0] == ECI);
            assert(spec_decode_parts(cw, false) == spec_decode_parts(cw, true));
            crate::decodation::eci::lemma_utf8_charset_round_trip(s);
            let spans = seq![(0usize, ECI_UTF8)];
            assert(bytes.subrange(0, 0) =~= Seq::<u8>::empty());
            assert(bytes.subrange(0, bytes.len() as int) =~= bytes);
            assert(crate::decodation::eci::spec_latin1_chars(Seq::<u8>::empty()) =~= Seq::<char>::empty());
            assert(crate::decodation::eci::spec_charset_chars(Seq::<u8>::empty(), 3) == Some(Seq::<char>::empty()));
            assert(Seq::<char>::empty() + Seq::<char>::empty() =~= Seq::<char>::empty());
            assert(Seq::<char>::empty() + s =~= s);
            assert(crate::decodation::eci::spec_span_end(0, 0, bytes.len() as int) == 0);
            assert(crate::decodation::eci::spec_convert(bytes, spans, 1, 0, ECI_UTF8, Seq::<char>::empty())
                == Ok::<Seq<char>, DataDecodingError>(s));
            assert(crate::decodation::eci::spec_convert(bytes, spans, 0, 0, 3, Seq::<char>::empty())
                == Ok::<Seq<char>, DataDecodingError>(s));
        },
        Err(_) => {},
    }
}

} // verus!
