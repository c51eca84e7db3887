//! Data decodation, the step after error correction: turns data codewords into bytes.
//!
//! It is the inverse of the data encodation.
use vstd::prelude::*;

pub mod eci;
pub mod modes;

use crate::encodation::{
    push_macro_head, push_macro_trail, spec_macro_head, spec_macro_trail, EncodationType,
    Fnc1Position, ECI_UTF8, MACRO05, MACRO06, READER_PROGRAMMING,
};
use modes::{
    decode_ascii, decode_base256, decode_c40_like, decode_edifact, decode_x12, spec_ascii,
    spec_base256, spec_c40_like, spec_edifact, spec_x12, Reader, BASE_C40, BASE_TEXT,
    SHIFT3_C40, SHIFT3_TEXT,
};

verus! {

/// Failure while decoding the data codewords.
#[derive(Debug, Clone, PartialEq, Eq)]
pub enum DataDecodingError {
    UnexpectedCharacter(&'static str, u8),
    NotImplemented(&'static str),
    UnexpectedEnd,
    CharsetError,
    /// ECI codewords are not supported when decoding to raw bytes.
    ECICode,
    /// A Reader Programming message is no host data.
    ReaderProgrammingMessage,
}

/// What decoding in one mode gives: position after it, next mode, output, ECI spans, FNC1.
pub type ModeResult = Result<
    (int, EncodationType, Seq<u8>, Seq<(usize, u32)>, Option<Fnc1Position>),
    DataDecodingError,
>;

/// Decoding in `mode` from `pos`.
#[verifier::opaque]
pub open spec fn spec_mode(
    d: Seq<u8>,
    pos: int,
    mode: EncodationType,
    out: Seq<u8>,
    ecis: Seq<(usize, u32)>,
    fnc1: Option<Fnc1Position>,
) -> ModeResult {
    match mode {
        EncodationType::Ascii => spec_ascii(d, pos, out, ecis, fnc1, false),
        EncodationType::Base256 => match spec_base256(d, pos, out) {
            Ok((p, o)) => Ok((p, EncodationType::Ascii, o, ecis, fnc1)),
            Err(e) => Err(e),
        },
        EncodationType::X12 => match spec_x12(d, pos, out) {
            Ok((p, o)) => Ok((p, EncodationType::Ascii, o, ecis, fnc1)),
            Err(e) => Err(e),
        },
        EncodationType::Edifact => Ok(
            (spec_edifact(d, pos, out).0, EncodationType::Ascii, spec_edifact(d, pos, out).1, ecis, fnc1),
        ),
        EncodationType::C40 => match spec_c40_like(d, pos, out, 0, false, BASE_C40@, SHIFT3_C40@) {
            Ok((p, o)) => Ok((p, EncodationType::Ascii, o, ecis, fnc1)),
            Err(e) => Err(e),
        },
        EncodationType::Text => match spec_c40_like(d, pos, out, 0, false, BASE_TEXT@, SHIFT3_TEXT@) {
            Ok((p, o)) => Ok((p, EncodationType::Ascii, o, ecis, fnc1)),
            Err(e) => Err(e),
        },
    }
}

/// A mode decoder either consumed codewords or handed back to ASCII.
pub open spec fn progress(d: Seq<u8>, pos: int, mode: EncodationType, p: int, m: EncodationType) -> bool {
    &&& pos <= p <= d.len()
    &&& (p > pos || (mode != EncodationType::Ascii && m == EncodationType::Ascii))
}

pub open spec fn run_measure(d: Seq<u8>, pos: int, mode: EncodationType) -> int {
    2 * (d.len() - pos) + if mode == EncodationType::Ascii {
        0int
    } else {
        1int
    }
}

/// Decoding from `pos` in `mode` until the end of the data.
pub open spec fn spec_run(
    d: Seq<u8>,
    pos: int,
    mode: EncodationType,
    out: Seq<u8>,
    ecis: Seq<(usize, u32)>,
    fnc1: Option<Fnc1Position>,
) -> Result<(Seq<u8>, Seq<(usize, u32)>, Option<Fnc1Position>), DataDecodingError>
    decreases run_measure(d, pos, mode),
    when 0 <= pos <= d.len()
{
    if pos >= d.len() {
        Ok((out, ecis, fnc1))
    } else {
        match spec_mode(d, pos, mode, out, ecis, fnc1) {
            Err(e) => Err(e),
            Ok((p, m, o, e, f)) => if progress(d, pos, mode, p, m) {
                spec_run(d, p, m, o, e, f)
            } else {
                Err(DataDecodingError::UnexpectedEnd)
            },
        }
    }
}

/// The macro version of the data (ASCII `5` or `6`), if it starts with a macro codeword.
pub open spec fn spec_macro_version(d: Seq<u8>, rp: bool) -> Option<u8> {
    let p0 = if rp { 1int } else { 0int };
    if rp || p0 >= d.len() {
        None
    } else if d[p0] == MACRO05 {
        Some(53u8)
    } else if d[p0] == MACRO06 {
        Some(54u8)
    } else {
        None
    }
}

/// Decoded data codewords: output bytes, ECI spans, FNC1 flag and Reader
/// Programming flag. With `raw` false, the macro header and trailer get
/// UTF-8 spans around them, for the conversion to a string.
pub open spec fn spec_decode_parts(d: Seq<u8>, raw: bool) -> Result<
    (Seq<u8>, Seq<(usize, u32)>, Option<Fnc1Position>, bool),
    DataDecodingError,
> {
    let rp = d.len() > 0 && d[0] == READER_PROGRAMMING;
    let macro_version = spec_macro_version(d, rp);
    let start = if rp { 1int } else { 0int } + if macro_version is Some { 1int } else { 0int };
    let out0 = match macro_version {
        Some(v) => spec_macro_head(v),
        None => Seq::<u8>::empty(),
    };
    let ecis0 = if !raw && macro_version is Some {
        seq![(0usize, ECI_UTF8), (7usize, 0u32)]
    } else {
        Seq::<(usize, u32)>::empty()
    };
    match spec_run(d, start, EncodationType::Ascii, out0, ecis0, None) {
        Err(e) => Err(e),
        Ok((out, ecis, fnc1)) => if macro_version is Some {
            let ecis2 = if ecis.len() > 0 {
                ecis.push((out.len() as usize, ECI_UTF8))
            } else {
                ecis
            };
            Ok((out + spec_macro_trail(), ecis2, fnc1, rp))
        } else {
            Ok((out, ecis, fnc1, rp))
        },
    }
}

pub struct DecodedParts {
    pub output: Vec<u8>,
    pub eci_spans: Vec<(usize, u32)>,
    pub fnc1: Option<Fnc1Position>,
    pub reader_programming: bool,
}

pub open spec fn parts_match(
    r: Result<DecodedParts, DataDecodingError>,
    s: Result<(Seq<u8>, Seq<(usize, u32)>, Option<Fnc1Position>, bool), DataDecodingError>,
) -> bool {
    match s {
        Ok((o, e, f, rp)) => r matches Ok(p) && p.output@ == o && p.eci_spans@ == e && p.fnc1 == f
            && p.reader_programming == rp,
        Err(e) => r == Err::<DecodedParts, DataDecodingError>(e),
    }
}

/// Decodes in the mode `mode` from the reader's position.
fn decode_mode(
    data: &mut Reader,
    mode: EncodationType,
    out: &mut Vec<u8>,
    ecis: &mut Vec<(usize, u32)>,
    fnc1: &mut Option<Fnc1Position>,
) -> (r: Result<EncodationType, DataDecodingError>)
    requires
        old(data).wf(),
    ensures
        final(data).wf(),
        final(data).data == old(data).data,
        match spec_mode(old(data).data@, old(data).pos as int, mode, old(out)@, old(ecis)@, *old(fnc1)) {
            Ok((p, m, o, e, f)) => r == Ok::<EncodationType, DataDecodingError>(m)
                && final(data).pos == p && final(out)@ == o && final(ecis)@ == e
                && *final(fnc1) == f,
            Err(e) => r == Err::<EncodationType, DataDecodingError>(e),
        },
        r matches Ok(m) ==> progress(old(data).data@, old(data).pos as int, mode, final(data).pos as int, m)
            || (mode == EncodationType::Ascii && final(data).pos == old(data).pos
                && old(data).pos == old(data).data@.len()),
{
    proof { modes::lemma_c40_tables(); }
    reveal(spec_mode);
    match mode {
        EncodationType::Ascii => decode_ascii(data, out, ecis, fnc1),
        EncodationType::Base256 => decode_base256(data, out),
        EncodationType::X12 => decode_x12(data, out),
        EncodationType::Edifact => decode_edifact(data, out),
        EncodationType::C40 => decode_c40_like(data, out, &BASE_C40, &SHIFT3_C40),
        EncodationType::Text => decode_c40_like(data, out, &BASE_TEXT, &SHIFT3_TEXT),
    }
}

/// Decodes data codewords into bytes and the control metadata.
pub fn decode_parts(data: &[u8], raw: bool) -> (r: Result<DecodedParts, DataDecodingError>)
    ensures
        parts_match(r, spec_decode_parts(data@, raw)),
{
    let ghost d = data@;
    let mut reader = Reader { data, pos: 0 };
    let mut mode = EncodationType::Ascii;
    let mut out: Vec<u8> = Vec::new();
    let mut ecis: Vec<(usize, u32)> = Vec::new();
    let mut fnc1: Option<Fnc1Position> = None;

    let reader_programming = if reader.peek(0) == Some(READER_PROGRAMMING) {
        reader.pos = 1;
        true
    } else {
        false
    };

    let ghost mv = spec_macro_version(d, reader_programming);
    let mut add_macro_trail = false;
    if !reader_programming {
        if reader.peek(0) == Some(MACRO05) {
            push_macro_head(&mut out, 53);
            reader.pos = reader.pos + 1;
            add_macro_trail = true;
        } else if reader.peek(0) == Some(MACRO06) {
            push_macro_head(&mut out, 54);
            reader.pos = reader.pos + 1;
            add_macro_trail = true;
        }
    }
    if !raw && add_macro_trail {
        ecis.push((0, ECI_UTF8));
        ecis.push((out.len(), 0));
    }
    proof {
        assert(out@ =~= match mv {
            Some(v) => spec_macro_head(v),
            None => Seq::<u8>::empty(),
        });
        assert(ecis@ =~= if !raw && mv is Some {
            seq![(0usize, ECI_UTF8), (7usize, 0u32)]
        } else {
            Seq::<(usize, u32)>::empty()
        });
    }
    let ghost start = reader.pos as int;
    let ghost out0 = out@;
    let ghost ecis0 = ecis@;

    while !reader.is_empty()
        invariant
            reader.wf(),
            reader.data@ == d,
            data@ == d,
            reader_programming == (d.len() > 0 && d[0] == READER_PROGRAMMING),
            mv == spec_macro_version(d, reader_programming),
            add_macro_trail == (mv is Some),
            start == (if reader_programming { 1int } else { 0int }) + if mv is Some { 1int } else { 0int },
            0 <= start <= d.len(),
            out0 == match mv {
                Some(v) => spec_macro_head(v),
                None => Seq::<u8>::empty(),
            },
            ecis0 == if !raw && mv is Some {
                seq![(0usize, ECI_UTF8), (7usize, 0u32)]
            } else {
                Seq::<(usize, u32)>::empty()
            },
            spec_run(d, reader.pos as int, mode, out@, ecis@, fnc1) == spec_run(
                d,
                start,
                EncodationType::Ascii,
                out0,
                ecis0,
                None,
            ),
        decreases run_measure(d, reader.pos as int, mode),
    {
        let ghost p = reader.pos as int;
        let ghost m0 = mode;
        let ghost o = out@;
        let ghost e = ecis@;
        let ghost f = fnc1;
        mode = match decode_mode(&mut reader, mode, &mut out, &mut ecis, &mut fnc1) {
            Ok(m) => m,
            Err(err) => {
                proof {
                    assert(spec_run(d, p, m0, o, e, f) == Err::<(Seq<u8>, Seq<(usize, u32)>, Option<Fnc1Position>), DataDecodingError>(err));

                }
                return Err(err);
            },
        };
        proof {
            assert(spec_run(d, p, m0, o, e, f) == spec_run(d, reader.pos as int, mode, out@, ecis@, fnc1));
        }
    }

    if add_macro_trail {
        if ecis.len() > 0 {
            ecis.push((out.len(), ECI_UTF8));
        }
        push_macro_trail(&mut out);
    }

    Ok(DecodedParts { output: out, eci_spans: ecis, fnc1, reader_programming })
}

/// Raw decoding: the host bytes, or the reason they cannot be handed out.
pub open spec fn spec_decode_data(d: Seq<u8>) -> Result<Seq<u8>, DataDecodingError> {
    match spec_decode_parts(d, true) {
        Err(e) => Err(e),
        Ok((out, ecis, _fnc1, rp)) => if rp {
            Err(DataDecodingError::ReaderProgrammingMessage)
        } else if ecis.len() > 0 {
            Err(DataDecodingError::ECICode)
        } else {
            Ok(out)
        },
    }
}

/// Decodes the data codewords of a Data Matrix into the raw bytes.
///
/// Symbols with ECI or Reader Programming are refused; see [decode_message].
pub fn decode_data(data: &[u8]) -> (r: Result<Vec<u8>, DataDecodingError>)
    ensures
        match spec_decode_data(data@) {
            Ok(out) => r matches Ok(v) && v@ == out,
            Err(e) => r == Err::<Vec<u8>, DataDecodingError>(e),
        },
{
    let parts = decode_parts(data, true)?;
    if parts.reader_programming {
        Err(DataDecodingError::ReaderProgrammingMessage)
    } else if parts.eci_spans.len() > 0 {
        Err(DataDecodingError::ECICode)
    } else {
        Ok(parts.output)
    }
}

/// Decoding to a string: the characters, or the reason they cannot be given.
pub open spec fn spec_decode_str(d: Seq<u8>) -> Result<Seq<char>, DataDecodingError> {
    match spec_decode_parts(d, false) {
        Err(e) => Err(e),
        Ok((out, ecis, _fnc1, rp)) => if rp {
            Err(DataDecodingError::ReaderProgrammingMessage)
        } else {
            eci::spec_convert(out, ecis, 0, 0, 3, Seq::empty())
        },
    }
}

/// Decodes the data codewords of a Data Matrix into a string.
///
/// Without ECI the bytes are read as Latin-1; under ECI 26 as UTF-8.
pub fn decode_str(data: &[u8]) -> (r: Result<String, DataDecodingError>)
    ensures
        match spec_decode_str(data@) {
            Ok(c) => r matches Ok(s) && s@ == c,
            Err(e) => r == Err::<String, DataDecodingError>(e),
        },
{
    let parts = decode_parts(data, false)?;
    if parts.reader_programming {
        return Err(DataDecodingError::ReaderProgrammingMessage);
    }
    eci::convert(parts.output.as_slice(), parts.eci_spans.as_slice())
}

/// A decoded Data Matrix message with the metadata that the transmission
/// protocol of ISO/IEC 16022 Clause 12 needs: FNC1 position, ECI spans and
/// the Reader Programming flag.
#[derive(Debug, Clone, PartialEq, Eq)]
pub struct DecodedMessage {
    data: Vec<u8>,
    eci_spans: Vec<(usize, u32)>,
    fnc1: Option<Fnc1Position>,
    reader_programming: bool,
}

/// Option value of the symbology identifier `]dm` (Annex H, Table H.1).
pub open spec fn spec_identifier_option(fnc1: Option<Fnc1Position>, has_eci: bool) -> u8 {
    match (fnc1, has_eci) {
        (None, false) => 1,
        (Some(Fnc1Position::First), false) => 2,
        (Some(Fnc1Position::Second), false) => 3,
        (None, true) => 4,
        (Some(Fnc1Position::First), true) => 5,
        (Some(Fnc1Position::Second), true) => 6,
    }
}

/// The escape sequence `\nnnnnn` of an ECI (12.5): a backslash and the six
/// lowest decimal digits.
pub open spec fn spec_eci_escape(eci: u32) -> Seq<u8> {
    seq![
        92u8,
        (48 + (eci / 100000) % 10) as u8,
        (48 + (eci / 10000) % 10) as u8,
        (48 + (eci / 1000) % 10) as u8,
        (48 + (eci / 100) % 10) as u8,
        (48 + (eci / 10) % 10) as u8,
        (48 + eci % 10) as u8,
    ]
}

/// A data byte in the escape protocol: a backslash is doubled.
pub open spec fn spec_escaped_byte(b: u8) -> Seq<u8> {
    if b == 92 {
        seq![92u8, 92u8]
    } else {
        seq![b]
    }
}

/// The data with the ECI escapes inserted at their offsets (12.5), appended to
/// `acc`, from data index `i` and span index `k` on. Escapes whose offset lies
/// at or past the end of the data come after the data.
pub open spec fn spec_escaped(
    data: Seq<u8>,
    spans: Seq<(usize, u32)>,
    i: int,
    k: int,
    acc: Seq<u8>,
) -> Seq<u8>
    decreases (data.len() - i) + (spans.len() - k),
    when 0 <= i <= data.len() && 0 <= k <= spans.len()
{
    if k < spans.len() && (i >= data.len() || spans[k].0 == i) {
        spec_escaped(data, spans, i, k + 1, acc + spec_eci_escape(spans[k].1))
    } else if i < data.len() {
        spec_escaped(data, spans, i + 1, k, acc + spec_escaped_byte(data[i]))
    } else {
        acc
    }
}

/// The transmitted bytes (Clause 12): the symbology identifier, then the data,
/// escaped when the symbol has ECIs. Reader Programming messages are not transmitted.
pub open spec fn spec_transmission(
    data: Seq<u8>,
    spans: Seq<(usize, u32)>,
    fnc1: Option<Fnc1Position>,
    rp: bool,
) -> Seq<u8> {
    if rp {
        Seq::empty()
    } else {
        let id = seq![93u8, 100u8, (48 + spec_identifier_option(fnc1, spans.len() > 0)) as u8];
        if spans.len() == 0 {
            id + data
        } else {
            spec_escaped(data, spans, 0, 0, id)
        }
    }
}

impl DecodedMessage {
    /// The decoded bytes.
    pub closed spec fn spec_data(&self) -> Seq<u8> {
        self.data@
    }

    /// The `(offset, ECI number)` pairs.
    pub closed spec fn spec_eci_spans(&self) -> Seq<(usize, u32)> {
        self.eci_spans@
    }

    /// Position of the FNC1 that flags the data format.
    pub closed spec fn spec_fnc1(&self) -> Option<Fnc1Position> {
        self.fnc1
    }

    /// Whether the symbol is a Reader Programming message.
    pub closed spec fn spec_reader_programming(&self) -> bool {
        self.reader_programming
    }

    /// The decoded bytes: macro header and trailer expanded, field separator
    /// FNC1s as GS (29). The format flag FNC1 and the ECI escapes are not part
    /// of it.
    pub fn data(&self) -> (r: &[u8])
        ensures
            r@ == self.spec_data(),
    {
        self.data.as_slice()
    }

    /// Position of the FNC1 that flags the data format, if any.
    pub fn fnc1(&self) -> (r: Option<Fnc1Position>)
        ensures
            r == self.spec_fnc1(),
    {
        self.fnc1
    }

    /// `(data offset, ECI number)` pairs in increasing offset order. Each ECI
    /// holds from its offset up to the next ECI or the end of the data (7.3.3).
    pub fn eci_spans(&self) -> (r: &[(usize, u32)])
        ensures
            r@ == self.spec_eci_spans(),
    {
        self.eci_spans.as_slice()
    }

    /// Whether the symbol holds at least one ECI codeword.
    pub fn has_eci(&self) -> (r: bool)
        ensures
            r == (self.spec_eci_spans().len() > 0),
    {
        self.eci_spans.len() > 0
    }

    /// Whether the symbol is a Reader Programming message (7.2.4.10); such
    /// messages program the reader and are not transmitted to the host.
    pub fn is_reader_programming(&self) -> (r: bool)
        ensures
            r == self.spec_reader_programming(),
    {
        self.reader_programming
    }

    /// The symbology identifier `]dm` of Annex H, to be put in front of the
    /// transmitted data; its transmission is required with ECI or a format
    /// flag FNC1 (12.6).
    pub fn symbology_identifier(&self) -> (r: &'static str)
        ensures
            r@ == seq![']', 'd', (48 + spec_identifier_option(self.spec_fnc1(), self.spec_eci_spans().len() > 0)) as char],
    {
        match (self.fnc1, self.has_eci()) {
            (None, false) => {
                proof { reveal_strlit("]d1"); }
                "]d1"
            },
            (Some(Fnc1Position::First), false) => {
                proof { reveal_strlit("]d2"); }
                "]d2"
            },
            (Some(Fnc1Position::Second), false) => {
                proof { reveal_strlit("]d3"); }
                "]d3"
            },
            (None, true) => {
                proof { reveal_strlit("]d4"); }
                "]d4"
            },
            (Some(Fnc1Position::First), true) => {
                proof { reveal_strlit("]d5"); }
                "]d5"
            },
            (Some(Fnc1Position::Second), true) => {
                proof { reveal_strlit("]d6"); }
                "]d6"
            },
        }
    }

    /// The bytes to transmit according to Clause 12.
    ///
    /// They start with the symbology identifier. With ECIs the escape protocol
    /// of 12.5 applies: each ECI is sent as `\nnnnnn` and every backslash (92)
    /// of the data is doubled. Macro headers and trailers are part of the
    /// data (12.4). A Reader Programming message gives no bytes.
    pub fn transmission(&self) -> (r: Vec<u8>)
        ensures
            r@ == spec_transmission(
                self.spec_data(),
                self.spec_eci_spans(),
                self.spec_fnc1(),
                self.spec_reader_programming(),
            ),
    {
        if self.reader_programming {
            return Vec::new();
        }
        let has_eci = self.has_eci();
        let option: u8 = match (self.fnc1, has_eci) {
            (None, false) => 1,
            (Some(Fnc1Position::First), false) => 2,
            (Some(Fnc1Position::Second), false) => 3,
            (None, true) => 4,
            (Some(Fnc1Position::First), true) => 5,
            (Some(Fnc1Position::Second), true) => 6,
        };
        let mut out: Vec<u8> = Vec::new();
        out.push(93);
        out.push(100);
        out.push(48 + option);
        let ghost id = out@;
        proof {
            assert(id =~= seq![93u8, 100u8, (48 + spec_identifier_option(self.fnc1, has_eci)) as u8]);
        }
        if !has_eci {
            let mut i: usize = 0;
            while i < self.data.len()
                invariant
                    i <= self.data@.len(),
                    out@ == id + self.data@.subrange(0, i as int),
                decreases self.data@.len() - i,
            {
                out.push(self.data[i]);
                i += 1;
                proof {
                    assert(out@ =~= id + self.data@.subrange(0, i as int));
                }
            }
            proof {
                assert(self.data@.subrange(0, self.data@.len() as int) =~= self.data@);
            }
            return out;
        }
        let ghost data = self.data@;
        let ghost spans = self.eci_spans@;
        let mut k: usize = 0;
        let mut i: usize = 0;
        while i < self.data.len()
            invariant
                i <= data.len(),
                k <= spans.len(),
                data == self.data@,
                spans == self.eci_spans@,
                spec_escaped(data, spans, i as int, k as int, out@) == spec_escaped(
                    data,
                    spans,
                    0,
                    0,
                    id,
                ),
            decreases data.len() - i,
        {
            while k < self.eci_spans.len() && self.eci_spans[k].0 == i
                invariant
                    i < data.len(),
                    k <= spans.len(),
                    data == self.data@,
                    spans == self.eci_spans@,
                    spec_escaped(data, spans, i as int, k as int, out@) == spec_escaped(
                        data,
                        spans,
                        0,
                        0,
                        id,
                    ),
                decreases spans.len() - k,
            {
                let ghost before = out@;
                push_eci_escape(&mut out, self.eci_spans[k].1);
                k += 1;
                proof {
                    assert(spec_escaped(data, spans, i as int, k - 1, before) == spec_escaped(
                        data,
                        spans,
                        i as int,
                        k as int,
                        out@,
                    ));
                }
            }
            let ghost before = out@;
            let byte = self.data[i];
            if byte == 92 {
                out.push(byte);
            }
            out.push(byte);
            i += 1;
            proof {
                assert(out@ =~= before + spec_escaped_byte(byte));
                assert(spec_escaped(data, spans, i - 1, k as int, before) == spec_escaped(
                    data,
                    spans,
                    i as int,
                    k as int,
                    out@,
                ));
            }
        }
        // ECIs declared at the end of the data are transmitted too.
        while k < self.eci_spans.len()
            invariant
                i == data.len(),
                k <= spans.len(),
                data == self.data@,
                spans == self.eci_spans@,
                spec_escaped(data, spans, i as int, k as int, out@) == spec_escaped(
                    data,
                    spans,
                    0,
                    0,
                    id,
                ),
            decreases spans.len() - k,
        {
            let ghost before = out@;
            push_eci_escape(&mut out, self.eci_spans[k].1);
            k += 1;
            proof {
                assert(spec_escaped(data, spans, i as int, k - 1, before) == spec_escaped(
                    data,
                    spans,
                    i as int,
                    k as int,
                    out@,
                ));
            }
        }
        out
    }
}

/// Appends the escape sequence `\nnnnnn` of an ECI (12.5).
pub fn push_eci_escape(out: &mut Vec<u8>, eci: u32)
    ensures
        final(out)@ == old(out)@ + spec_eci_escape(eci),
{
    out.push(92);
    out.push(48 + ((eci / 100000) % 10) as u8);
    out.push(48 + ((eci / 10000) % 10) as u8);
    out.push(48 + ((eci / 1000) % 10) as u8);
    out.push(48 + ((eci / 100) % 10) as u8);
    out.push(48 + ((eci / 10) % 10) as u8);
    out.push(48 + (eci % 10) as u8);
    proof {
        assert(final(out)@ =~= old(out)@ + spec_eci_escape(eci));
    }
}

/// Decodes the data codewords with the transmission metadata.
///
/// Unlike [decode_data], symbols with ECI or Reader Programming are accepted;
/// the metadata is kept in the [DecodedMessage].
pub fn decode_message(data: &[u8]) -> (r: Result<DecodedMessage, DataDecodingError>)
    ensures
        match spec_decode_parts(data@, true) {
            Ok((o, e, f, rp)) => r matches Ok(m) && m.spec_data() == o && m.spec_eci_spans() == e
                && m.spec_fnc1() == f && m.spec_reader_programming() == rp,
            Err(e) => r == Err::<DecodedMessage, DataDecodingError>(e),
        },
{
    let parts = decode_parts(data, true)?;
    Ok(
        DecodedMessage {
            data: parts.output,
            eci_spans: parts.eci_spans,
            fnc1: parts.fnc1,
            reader_programming: parts.reader_programming,
        },
    )
}

/// Raw decoding and message decoding agree: the raw bytes are the message
/// data exactly when the message is no Reader Programming message and has no
/// ECI; otherwise raw decoding names the reason.
pub proof fn lemma_decode_data_is_plain_message(d: Seq<u8>)
    ensures
        match spec_decode_parts(d, true) {
            Ok((o, e, f, rp)) => {
                &&& rp ==> spec_decode_data(d) == Err::<Seq<u8>, DataDecodingError>(
                    DataDecodingError::ReaderProgrammingMessage,
                )
                &&& !rp && e.len() > 0 ==> spec_decode_data(d) == Err::<Seq<u8>, DataDecodingError>(
                    DataDecodingError::ECICode,
                )
                &&& !rp && e.len() == 0 ==> spec_decode_data(d) == Ok::<Seq<u8>, DataDecodingError>(o)
            },
            Err(e) => spec_decode_data(d) == Err::<Seq<u8>, DataDecodingError>(e),
        },
{
}

/// A message without ECI is transmitted as the symbology identifier followed
/// by the data unchanged; a Reader Programming message is not transmitted.
pub proof fn lemma_transmission_without_eci(
    data: Seq<u8>,
    spans: Seq<(usize, u32)>,
    fnc1: Option<Fnc1Position>,
    rp: bool,
)
    ensures
        rp ==> spec_transmission(data, spans, fnc1, rp).len() == 0,
        !rp && spans.len() == 0 ==> spec_transmission(data, spans, fnc1, rp) == seq![
            93u8,
            100u8,
            (48 + spec_identifier_option(fnc1, false)) as u8,
        ] + data,
{
}

} // verus!

verus! {

/// The number that six ASCII decimal digits stand for.
pub open spec fn six_digits_value(t: Seq<u8>) -> int {
    (t[0] - 48) * 100000 + (t[1] - 48) * 10000 + (t[2] - 48) * 1000 + (t[3] - 48) * 100 + (t[4] - 48) * 10
        + (t[5] - 48)
}

/// Reads transmitted bytes after the symbology identifier back (12.5): a
/// doubled backslash is one data backslash, a backslash with six digits
/// an ECI at the current data offset, any other byte a data byte.
pub open spec fn spec_unescape(t: Seq<u8>, data: Seq<u8>, spans: Seq<(usize, u32)>) -> (
    Seq<u8>,
    Seq<(usize, u32)>,
)
    decreases t.len(),
{
    if t.len() == 0 {
        (data, spans)
    } else if t[0] == 92 && t.len() >= 2 && t[1] == 92 {
        spec_unescape(t.skip(2), data.push(92u8), spans)
    } else if t[0] == 92 && t.len() >= 7 {
        spec_unescape(t.skip(7), data, spans.push((data.len() as usize, six_digits_value(t.subrange(1, 7)) as u32)))
    } else {
        spec_unescape(t.skip(1), data.push(t[0]), spans)
    }
}

/// The six digits of an ECI escape give the assignment number back.
proof fn lemma_eci_digits(e: u32)
    requires
        e <= 999999,
    ensures
        spec_eci_escape(e).len() == 7,
        spec_eci_escape(e)[0] == 92,
        spec_eci_escape(e)[1] != 92,
        six_digits_value(spec_eci_escape(e).subrange(1, 7)) == e,
{
    let x = e as int;
    vstd::arithmetic::div_mod::lemma_div_denominator(x, 10, 10);
    vstd::arithmetic::div_mod::lemma_div_denominator(x, 100, 10);
    vstd::arithmetic::div_mod::lemma_div_denominator(x, 1000, 10);
    vstd::arithmetic::div_mod::lemma_div_denominator(x, 10000, 10);
    vstd::arithmetic::div_mod::lemma_fundamental_div_mod(x, 10);
    vstd::arithmetic::div_mod::lemma_fundamental_div_mod(x / 10, 10);
    vstd::arithmetic::div_mod::lemma_fundamental_div_mod(x / 100, 10);
    vstd::arithmetic::div_mod::lemma_fundamental_div_mod(x / 1000, 10);
    vstd::arithmetic::div_mod::lemma_fundamental_div_mod(x / 10000, 10);
    assert(x / 100000 < 10);
    assert((x / 100000) % 10 == x / 100000);
    let t = spec_eci_escape(e).subrange(1, 7);
    assert(t[0] - 48 == (x / 100000) % 10);
    assert(t[1] - 48 == (x / 10000) % 10);
    assert(t[2] - 48 == (x / 1000) % 10);
    assert(t[3] - 48 == (x / 100) % 10);
    assert(t[4] - 48 == (x / 10) % 10);
    assert(t[5] - 48 == x % 10);
}

/// The escaped data from `(i, k)` on, appended to `acc`, is `acc` followed by
/// the escaped data from `(i, k)` on.
proof fn lemma_escaped_acc(data: Seq<u8>, spans: Seq<(usize, u32)>, i: int, k: int, acc: Seq<u8>)
    requires
        0 <= i <= data.len(),
        0 <= k <= spans.len(),
    ensures
        spec_escaped(data, spans, i, k, acc) == acc + spec_escaped(data, spans, i, k, Seq::empty()),
    decreases (data.len() - i) + (spans.len() - k),
{
    if k < spans.len() && (i >= data.len() || spans[k].0 == i) {
        let esc = spec_eci_escape(spans[k].1);
        lemma_escaped_acc(data, spans, i, k + 1, acc + esc);
        lemma_escaped_acc(data, spans, i, k + 1, Seq::empty() + esc);
        lemma_escaped_acc(data, spans, i, k + 1, esc);
        assert(Seq::<u8>::empty() + esc =~= esc);
        assert(acc + esc + spec_escaped(data, spans, i, k + 1, Seq::empty()) =~= acc + (esc + spec_escaped(
            data, spans, i, k + 1, Seq::empty())));
    } else if i < data.len() {
        let b = spec_escaped_byte(data[i]);
        lemma_escaped_acc(data, spans, i + 1, k, acc + b);
        lemma_escaped_acc(data, spans, i + 1, k, b);
        assert(Seq::<u8>::empty() + b =~= b);
        assert(acc + b + spec_escaped(data, spans, i + 1, k, Seq::empty()) =~= acc + (b + spec_escaped(
            data, spans, i + 1, k, Seq::empty())));
    } else {
        assert(acc + Seq::<u8>::empty() =~= acc);
    }
}

/// Whether ECI spans can be transmitted and read back: their offsets do not
/// decrease and lie within the data, and the assignment numbers have at
/// most six digits.
pub open spec fn spans_in_order(data: Seq<u8>, spans: Seq<(usize, u32)>) -> bool {
    &&& forall|a: int, b: int| 0 <= a <= b < spans.len() ==> (#[trigger] spans[a]).0 <= (#[trigger] spans[b]).0
    &&& forall|a: int| 0 <= a < spans.len() ==> (#[trigger] spans[a]).0 <= data.len() && spans[a].1 <= 999999
}

proof fn lemma_unescape_from(data: Seq<u8>, spans: Seq<(usize, u32)>, i: int, k: int)
    requires
        0 <= i <= data.len(),
        0 <= k <= spans.len(),
        spans_in_order(data, spans),
        k < spans.len() ==> spans[k].0 >= i,
    ensures
        spec_unescape(spec_escaped(data, spans, i, k, Seq::empty()), data.take(i), spans.take(k)) == (data, spans),
    decreases (data.len() - i) + (spans.len() - k),
{
    let t = spec_escaped(data, spans, i, k, Seq::empty());
    if k < spans.len() && (i >= data.len() || spans[k].0 == i) {
        let esc = spec_eci_escape(spans[k].1);
        lemma_escaped_acc(data, spans, i, k + 1, Seq::empty() + esc);
        assert(Seq::<u8>::empty() + esc =~= esc);
        lemma_eci_digits(spans[k].1);
        assert(spans[k].0 == i);
        if k + 1 < spans.len() {
            assert(spans[k].0 <= spans[k + 1].0);
        }
        lemma_unescape_from(data, spans, i, k + 1);
        assert(t[0] == 92 && t[1] != 92 && t.len() >= 7);
        assert(t.subrange(1, 7) =~= esc.subrange(1, 7));
        assert(t.skip(7) =~= spec_escaped(data, spans, i, k + 1, Seq::empty()));
        assert(data.take(i).len() == i);
        assert(spans.take(k).push((i as usize, spans[k].1)) =~= spans.take(k + 1));
    } else if i < data.len() {
        let b = spec_escaped_byte(data[i]);
        lemma_escaped_acc(data, spans, i + 1, k, Seq::empty() + b);
        assert(Seq::<u8>::empty() + b =~= b);
        lemma_unescape_from(data, spans, i + 1, k);
        assert(data.take(i).push(data[i]) =~= data.take(i + 1));
        if data[i] == 92 {
            assert(t.skip(2) =~= spec_escaped(data, spans, i + 1, k, Seq::empty()));
        } else {
            assert(t.skip(1) =~= spec_escaped(data, spans, i + 1, k, Seq::empty()));
        }
    } else {
        assert(data.take(i) =~= data);
        assert(spans.take(k) =~= spans);
    }
}

/// With ECIs, the transmission reads back uniquely: after the symbology
/// identifier, reading a doubled backslash as one data backslash and a
/// backslash with six digits as an ECI gives back the data and the ECI
/// spans (12.5).
pub proof fn lemma_transmission_reads_back(
    data: Seq<u8>,
    spans: Seq<(usize, u32)>,
    fnc1: Option<Fnc1Position>,
)
    requires
        spans.len() > 0,
        spans_in_order(data, spans),
    ensures
        spec_transmission(data, spans, fnc1, false).len() >= 3,
        spec_unescape(spec_transmission(data, spans, fnc1, false).skip(3), Seq::empty(), Seq::empty()) == (data, spans),
{
    let id = seq![93u8, 100u8, (48 + spec_identifier_option(fnc1, spans.len() > 0)) as u8];
    lemma_escaped_acc(data, spans, 0, 0, id);
    lemma_unescape_from(data, spans, 0, 0);
    assert(data.take(0) =~= Seq::<u8>::empty());
    assert(spans.take(0) =~= Seq::<(usize, u32)>::empty());
    assert((id + spec_escaped(data, spans, 0, 0, Seq::empty())).skip(3) =~= spec_escaped(data, spans, 0, 0, Seq::empty()));
}

} // verus!
