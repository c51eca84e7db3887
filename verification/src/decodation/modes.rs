//! Decoders of the single encodation modes.
//!
//! Each decoder reads from a position of the data codewords until its mode
//! ends, and reports the position and the mode to go on with. The spec
//! functions of this module define the decoding; the executable decoders are
//! proved equal to them.
use vstd::prelude::*;

use super::DataDecodingError;
use crate::encodation::{
    ascii, EncodationType, Fnc1Position, EDIFACT_UNLATCH, READER_PROGRAMMING, UNLATCH,
};

verus! {

/// Cursor over the data codewords.
pub struct Reader<'a> {
    pub data: &'a [u8],
    pub pos: usize,
}

impl<'a> Reader<'a> {
    pub open spec fn wf(&self) -> bool {
        self.pos <= self.data@.len()
    }

    /// Index of the next codeword, i.e. the number of codewords read so far.
    pub fn position(&self) -> (r: usize)
        ensures
            r == self.pos,
    {
        self.pos
    }

    /// Reads the next codeword.
    pub fn eat(&mut self) -> (r: Result<u8, DataDecodingError>)
        requires
            old(self).wf(),
        ensures
            final(self).wf(),
            final(self).data == old(self).data,
            old(self).pos < old(self).data@.len() ==> r == Ok::<u8, DataDecodingError>(
                old(self).data@[old(self).pos as int],
            ) && final(self).pos == old(self).pos + 1,
            old(self).pos >= old(self).data@.len() ==> r == Err::<u8, DataDecodingError>(
                DataDecodingError::UnexpectedEnd,
            ) && final(self).pos == old(self).pos,
    {
        if self.pos < self.data.len() {
            let ch = self.data[self.pos];
            self.pos = self.pos + 1;
            Ok(ch)
        } else {
            Err(DataDecodingError::UnexpectedEnd)
        }
    }

    /// Whether all codewords were read.
    pub fn is_empty(&self) -> (r: bool)
        requires
            self.wf(),
        ensures
            r == (self.pos == self.data@.len()),
    {
        self.pos >= self.data.len()
    }

    /// Number of codewords left.
    pub fn len(&self) -> (r: usize)
        requires
            self.wf(),
        ensures
            r == self.data@.len() - self.pos,
    {
        self.data.len() - self.pos
    }

    /// The codeword `i` places ahead, if there is one.
    pub fn peek(&self, i: usize) -> (r: Option<u8>)
        requires
            self.wf(),
        ensures
            r == (if self.pos + i < self.data@.len() {
                Some(self.data@[self.pos + i])
            } else {
                None::<u8>
            }),
    {
        if i < self.data.len() - self.pos {
            Some(self.data[self.pos + i])
        } else {
            None
        }
    }
}

// ---------------------------------------------------------------------------
// Pseudo-random states of the padding and of Base256.
// ---------------------------------------------------------------------------

/// Removes the 253-state randomization of the codeword at 1-based position `pos`.
pub open spec fn spec_derandomize_253(ch: u8, pos: int) -> u8 {
    let pseudo_random = (149 * pos) % 253 + 1;
    let tmp = ch - pseudo_random;
    if tmp >= 1 {
        tmp as u8
    } else {
        (tmp + 254) as u8
    }
}

/// Removes the 255-state randomization of the codeword at 1-based position `pos`.
pub open spec fn spec_derandomize_255(ch: u8, pos: int) -> u8 {
    let pseudo_random = (149 * pos) % 255 + 1;
    let tmp = ch - pseudo_random;
    if tmp >= 0 {
        tmp as u8
    } else {
        (tmp + 256) as u8
    }
}

pub proof fn lemma_mod_reduce(pos: int, m: int)
    requires
        pos >= 0,
        m > 0,
    ensures
        (149 * (pos % m)) % m == (149 * pos) % m,
{
    vstd::arithmetic::div_mod::lemma_mul_mod_noop_right(149, pos, m);
}

pub fn derandomize_253_state(ch: u8, pos: usize) -> (r: u8)
    ensures
        r == spec_derandomize_253(ch, pos as int),
{
    proof { lemma_mod_reduce(pos as int, 253); }
    let pseudo_random: i16 = ((149 * (pos % 253)) % 253 + 1) as i16;
    let tmp: i16 = ch as i16 - pseudo_random;
    if tmp >= 1 {
        tmp as u8
    } else {
        (tmp + 254) as u8
    }
}

pub fn derandomize_255_state(ch: u8, pos: usize) -> (r: u8)
    ensures
        r == spec_derandomize_255(ch, pos as int),
{
    proof { lemma_mod_reduce(pos as int, 255); }
    let pseudo_random: i16 = ((149 * (pos % 255)) % 255 + 1) as i16;
    let tmp: i16 = ch as i16 - pseudo_random;
    if tmp >= 0 {
        tmp as u8
    } else {
        (tmp + 256) as u8
    }
}

// ---------------------------------------------------------------------------
// ECI
// ---------------------------------------------------------------------------

/// Reads the ECI assignment number that follows an ECI codeword at `pos`.
pub open spec fn spec_read_eci(d: Seq<u8>, pos: int) -> Result<(int, u32), DataDecodingError> {
    if pos >= d.len() {
        Err(DataDecodingError::UnexpectedEnd)
    } else {
        let ch1 = d[pos];
        if 1 <= ch1 <= 127 {
            Ok((pos + 1, (ch1 - 1) as u32))
        } else if 128 <= ch1 <= 207 {
            if pos + 1 >= d.len() {
                Err(DataDecodingError::UnexpectedEnd)
            } else if !(1 <= d[pos + 1] <= 254) {
                Err(
                    DataDecodingError::UnexpectedCharacter(
                        "ECI sonrasındaki ikinci codeword",
                        d[pos + 1],
                    ),
                )
            } else if ch1 <= 191 {
                Ok((pos + 2, ((ch1 - 128) * 254 + (d[pos + 1] - 1) + 127) as u32))
            } else if pos + 2 >= d.len() {
                Err(DataDecodingError::UnexpectedEnd)
            } else if !(1 <= d[pos + 2] <= 254) {
                Err(
                    DataDecodingError::UnexpectedCharacter(
                        "ECI sonrasındaki üçüncü codeword",
                        d[pos + 2],
                    ),
                )
            } else {
                Ok(
                    (
                        pos + 3,
                        ((ch1 - 192) * 64516 + (d[pos + 1] - 1) * 254 + (d[pos + 2] - 1)
                            + 16383) as u32,
                    ),
                )
            }
        } else {
            Err(DataDecodingError::UnexpectedCharacter("ECI sonrasındaki ilk codeword", ch1))
        }
    }
}

/// What [write_eci_codewords](crate::encodation::write_eci_codewords) writes
/// after the ECI codeword, [read_eci] reads back: every assignment number up
/// to 999999, wherever its codewords stand in the data.
pub proof fn lemma_eci_round_trip(d: Seq<u8>, pos: int, eci: u32)
    requires
        eci <= 999999,
        0 <= pos,
        pos + crate::encodation::spec_eci_codewords(eci).len() <= d.len(),
        d.subrange(pos, pos + crate::encodation::spec_eci_codewords(eci).len())
            == crate::encodation::spec_eci_codewords(eci),
    ensures
        spec_read_eci(d, pos) == Ok::<(int, u32), DataDecodingError>(
            (pos + crate::encodation::spec_eci_codewords(eci).len(), eci),
        ),
{
    let c = crate::encodation::spec_eci_codewords(eci);
    let e = eci as int;
    assert(d[pos] == c[0]);
    if eci <= 126 {
    } else if eci <= 16382 {
        assert(d[pos + 1] == c[1]);
        let q = e - 127;
        assert(q / 254 <= 63 && q == (q / 254) * 254 + q % 254 && 0 <= q % 254 < 254) by (nonlinear_arith)
            requires
                0 <= q <= 16255,
        ;
    } else {
        assert(d[pos + 1] == c[1]);
        assert(d[pos + 2] == c[2]);
        let q = e - 16383;
        assert(q / 64516 <= 15 && q == (q / 64516) * 64516 + ((q / 254) % 254) * 254 + q % 254
            && 0 <= q % 254 < 254 && 0 <= (q / 254) % 254 < 254) by (nonlinear_arith)
            requires
                0 <= q <= 983616,
        {
            assert(q == (q / 254) * 254 + q % 254);
            assert(q / 254 == ((q / 254) / 254) * 254 + (q / 254) % 254);
            assert((q / 254) / 254 == q / 64516);
        }
    }
}

/// Reads an ECI assignment number (7.4.2); the ECI codeword itself was read before.
pub fn read_eci(data: &mut Reader) -> (r: Result<u32, DataDecodingError>)
    requires
        old(data).wf(),
    ensures
        final(data).wf(),
        final(data).data == old(data).data,
        final(data).pos >= old(data).pos,
        match spec_read_eci(old(data).data@, old(data).pos as int) {
            Ok((p, eci)) => r == Ok::<u32, DataDecodingError>(eci) && final(data).pos == p,
            Err(e) => r == Err::<u32, DataDecodingError>(e),
        },
{
    let mut ch1 = data.eat()?;
    let eci = if 1 <= ch1 && ch1 <= 127 {
        ch1 as u32 - 1
    } else if 128 <= ch1 && ch1 <= 191 {
        let mut ch2 = data.eat()?;
        if !(1 <= ch2 && ch2 <= 254) {
            return Err(DataDecodingError::UnexpectedCharacter("ECI sonrasındaki ikinci codeword", ch2));
        }
        ch2 -= 1;
        ch1 -= 128;
        (ch1 as u32) * 254 + ch2 as u32 + 127
    } else if 192 <= ch1 && ch1 <= 207 {
        let mut ch2 = data.eat()?;
        if !(1 <= ch2 && ch2 <= 254) {
            return Err(DataDecodingError::UnexpectedCharacter("ECI sonrasındaki ikinci codeword", ch2));
        }
        let mut ch3 = data.eat()?;
        if !(1 <= ch3 && ch3 <= 254) {
            return Err(DataDecodingError::UnexpectedCharacter("ECI sonrasındaki üçüncü codeword", ch3));
        }
        ch1 -= 192;
        ch2 -= 1;
        ch3 -= 1;
        (ch1 as u32) * 64516 + (ch2 as u32) * 254 + ch3 as u32 + 16383
    } else {
        return Err(DataDecodingError::UnexpectedCharacter("ECI sonrasındaki ilk codeword", ch1));
    };
    Ok(eci)
}

// ---------------------------------------------------------------------------
// ASCII
// ---------------------------------------------------------------------------

/// Result of decoding in one mode: the position after it, the mode to go on
/// with, the output, the ECI spans and the FNC1 flag.
pub type AsciiResult = Result<
    (int, EncodationType, Seq<u8>, Seq<(usize, u32)>, Option<Fnc1Position>),
    DataDecodingError,
>;

/// Checks that every codeword from `pos` on is a randomized padding codeword.
pub open spec fn spec_pad_check(d: Seq<u8>, pos: int) -> Result<(), DataDecodingError>
    decreases d.len() - pos,
{
    if pos >= d.len() {
        Ok(())
    } else {
        let ch = spec_derandomize_253(d[pos], pos + 1);
        if ch != ascii::PAD {
            Err(DataDecodingError::UnexpectedCharacter("padding alanında padding olmayan karakter", ch))
        } else {
            spec_pad_check(d, pos + 1)
        }
    }
}

/// One step of the ASCII decoder: either the next state, or the result.
pub enum AsciiStep {
    Next(int, Seq<u8>, Seq<(usize, u32)>, Option<Fnc1Position>, bool),
    Done(AsciiResult),
}

/// Reads the codeword at `pos` in ASCII mode (7.2.4) with the Upper Shift flag `upper`.
#[verifier::opaque]
pub open spec fn spec_ascii_step(
    d: Seq<u8>,
    pos: int,
    out: Seq<u8>,
    ecis: Seq<(usize, u32)>,
    fnc1: Option<Fnc1Position>,
    upper: bool,
) -> AsciiStep {
    if pos < 0 || pos >= d.len() {
        if upper {
            AsciiStep::Done(Err(DataDecodingError::UnexpectedEnd))
        } else {
            AsciiStep::Done(Ok((pos, EncodationType::Ascii, out, ecis, fnc1)))
        }
    } else {
        let ch = d[pos];
        let next = pos + 1;
        if upper && !(1 <= ch <= 128) {
            AsciiStep::Done(
                Err(
                    DataDecodingError::UnexpectedCharacter(
                        "ASCII 'Upper Shift' sonrasındaki karakter 1..=128 aralığında değil",
                        ch,
                    ),
                ),
            )
        } else if 1 <= ch <= 128 {
            if upper {
                AsciiStep::Next(next, out.push((ch + 127) as u8), ecis, fnc1, false)
            } else {
                AsciiStep::Next(next, out.push((ch - 1) as u8), ecis, fnc1, false)
            }
        } else if ch == ascii::PAD {
            AsciiStep::Done(
                match spec_pad_check(d, next) {
                    Ok(_) => Ok((d.len() as int, EncodationType::Ascii, out, ecis, fnc1)),
                    Err(e) => Err(e),
                },
            )
        } else if 130 <= ch <= 229 {
            let digit = ch - 130;
            AsciiStep::Next(
                next,
                out.push((48 + digit / 10) as u8).push((48 + digit % 10) as u8),
                ecis,
                fnc1,
                false,
            )
        } else if ch == ascii::LATCH_C40 {
            AsciiStep::Done(Ok((next, EncodationType::C40, out, ecis, fnc1)))
        } else if ch == ascii::LATCH_BASE256 {
            AsciiStep::Done(Ok((next, EncodationType::Base256, out, ecis, fnc1)))
        } else if ch == ascii::FNC1 {
            if fnc1 is None && next <= 2 {
                let p = if next == 1 {
                    Fnc1Position::First
                } else {
                    Fnc1Position::Second
                };
                AsciiStep::Next(next, out, ecis, Some(p), false)
            } else {
                AsciiStep::Next(next, out.push(29u8), ecis, fnc1, false)
            }
        } else if ch == ascii::STRUCTURED_APPEND {
            AsciiStep::Done(Err(DataDecodingError::NotImplemented("Structured Append")))
        } else if ch == READER_PROGRAMMING {
            AsciiStep::Done(
                Err(
                    DataDecodingError::UnexpectedCharacter(
                        "Reader Programming yalnızca ilk codeword olabilir",
                        READER_PROGRAMMING,
                    ),
                ),
            )
        } else if ch == ascii::UPPER_SHIFT {
            AsciiStep::Next(next, out, ecis, fnc1, true)
        } else if ch == ascii::LATCH_X12 {
            AsciiStep::Done(Ok((next, EncodationType::X12, out, ecis, fnc1)))
        } else if ch == ascii::LATCH_TEXT {
            AsciiStep::Done(Ok((next, EncodationType::Text, out, ecis, fnc1)))
        } else if ch == ascii::LATCH_EDIFACT {
            AsciiStep::Done(Ok((next, EncodationType::Edifact, out, ecis, fnc1)))
        } else if ch == ascii::ECI {
            match spec_read_eci(d, next) {
                Ok((p, eci)) => AsciiStep::Next(
                    p,
                    out,
                    ecis.push((out.len() as usize, eci)),
                    fnc1,
                    false,
                ),
                Err(e) => AsciiStep::Done(Err(e)),
            }
        } else {
            AsciiStep::Done(
                Err(DataDecodingError::UnexpectedCharacter("ASCII içinde geçersiz", ch)),
            )
        }
    }
}

/// ASCII decoding from `pos` on, until the data ends or another mode is latched.
pub open spec fn spec_ascii(
    d: Seq<u8>,
    pos: int,
    out: Seq<u8>,
    ecis: Seq<(usize, u32)>,
    fnc1: Option<Fnc1Position>,
    upper: bool,
) -> AsciiResult
    decreases d.len() - pos,
{
    match spec_ascii_step(d, pos, out, ecis, fnc1, upper) {
        AsciiStep::Next(p, o, e, f, u) => if pos < p <= d.len() {
            spec_ascii(d, p, o, e, f, u)
        } else {
            Err(DataDecodingError::UnexpectedEnd)
        },
        AsciiStep::Done(r) => r,
    }
}

fn check_padding(data: &mut Reader) -> (r: Result<(), DataDecodingError>)
    requires
        old(data).wf(),
    ensures
        final(data).wf(),
        final(data).data == old(data).data,
        r == spec_pad_check(old(data).data@, old(data).pos as int),
        r is Ok ==> final(data).pos == old(data).data@.len(),
        final(data).pos >= old(data).pos,
{
    while !data.is_empty()
        invariant
            data.wf(),
            data.data == old(data).data,
            data.pos >= old(data).pos,
            spec_pad_check(data.data@, data.pos as int) == spec_pad_check(
                old(data).data@,
                old(data).pos as int,
            ),
        decreases data.data@.len() - data.pos,
    {
        let ch = data.eat()?;
        let ch = derandomize_253_state(ch, data.position());
        if ch != ascii::PAD {
            return Err(DataDecodingError::UnexpectedCharacter("padding alanında padding olmayan karakter", ch));
        }
    }
    Ok(())
}

/// The exec state after a step agrees with `step`: `None` for `Next`, the result for `Done`.
pub open spec fn ascii_step_taken(
    step: AsciiStep,
    r: Option<Result<EncodationType, DataDecodingError>>,
    pos: int,
    out: Seq<u8>,
    ecis: Seq<(usize, u32)>,
    fnc1: Option<Fnc1Position>,
    upper: bool,
) -> bool {
    match step {
        AsciiStep::Next(p, o, e, f, u) => r is None && pos == p && out == o && ecis == e
            && fnc1 == f && upper == u,
        AsciiStep::Done(Ok((p, m, o, e, f))) => r == Some(
            Ok::<EncodationType, DataDecodingError>(m),
        ) && pos == p && out == o && ecis == e && fnc1 == f,
        AsciiStep::Done(Err(e)) => r == Some(Err::<EncodationType, DataDecodingError>(e)),
    }
}

/// Reads one codeword (or an ECI sequence) in ASCII mode.
fn ascii_step(
    data: &mut Reader,
    out: &mut Vec<u8>,
    ecis: &mut Vec<(usize, u32)>,
    fnc1: &mut Option<Fnc1Position>,
    upper_shift: &mut bool,
) -> (r: Option<Result<EncodationType, DataDecodingError>>)
    requires
        old(data).wf(),
        old(data).pos < old(data).data@.len(),
    ensures
        final(data).wf(),
        final(data).data == old(data).data,
        ascii_step_taken(
            spec_ascii_step(
                old(data).data@,
                old(data).pos as int,
                old(out)@,
                old(ecis)@,
                *old(fnc1),
                *old(upper_shift),
            ),
            r,
            final(data).pos as int,
            final(out)@,
            final(ecis)@,
            *final(fnc1),
            *final(upper_shift),
        ),
        final(data).pos > old(data).pos,
        r matches Some(Ok(m)) ==> (m == EncodationType::Ascii ==> final(data).pos == final(data).data@.len()),
{
    reveal(spec_ascii_step);
    let ch = match data.eat() {
        Ok(ch) => ch,
        Err(e) => return Some(Err(e)),
    };
    if *upper_shift && !(1 <= ch && ch <= 128) {
        return Some(
            Err(
                DataDecodingError::UnexpectedCharacter(
                    "ASCII 'Upper Shift' sonrasındaki karakter 1..=128 aralığında değil",
                    ch,
                ),
            ),
        );
    }
    if 1 <= ch && ch <= 128 {
        if *upper_shift {
            out.push(ch + 127);
            *upper_shift = false;
        } else {
            out.push(ch - 1);
        }
        None
    } else if ch == ascii::PAD {
        match check_padding(data) {
            Ok(()) => Some(Ok(EncodationType::Ascii)),
            Err(e) => Some(Err(e)),
        }
    } else if 130 <= ch && ch <= 229 {
        let digit = ch - 130;
        out.push(48 + (digit / 10));
        out.push(48 + (digit % 10));
        None
    } else if ch == ascii::LATCH_C40 {
        Some(Ok(EncodationType::C40))
    } else if ch == ascii::LATCH_BASE256 {
        Some(Ok(EncodationType::Base256))
    } else if ch == ascii::FNC1 {
        // The first FNC1 in the first or second position flags the data format
        // (7.2.4.7) and is not transmitted; every other FNC1 separates fields
        // and is transmitted as GS (29).
        let position = data.position();
        if fnc1.is_none() && position <= 2 {
            *fnc1 = Some(
                if position == 1 {
                    Fnc1Position::First
                } else {
                    Fnc1Position::Second
                },
            );
        } else {
            out.push(29);
        }
        None
    } else if ch == ascii::STRUCTURED_APPEND {
        Some(Err(DataDecodingError::NotImplemented("Structured Append")))
    } else if ch == READER_PROGRAMMING {
        Some(
            Err(
                DataDecodingError::UnexpectedCharacter(
                    "Reader Programming yalnızca ilk codeword olabilir",
                    READER_PROGRAMMING,
                ),
            ),
        )
    } else if ch == ascii::UPPER_SHIFT {
        *upper_shift = true;
        None
    } else if ch == ascii::LATCH_X12 {
        Some(Ok(EncodationType::X12))
    } else if ch == ascii::LATCH_TEXT {
        Some(Ok(EncodationType::Text))
    } else if ch == ascii::LATCH_EDIFACT {
        Some(Ok(EncodationType::Edifact))
    } else if ch == ascii::ECI {
        match read_eci(data) {
            Ok(eci) => {
                ecis.push((out.len(), eci));
                None
            },
            Err(e) => Some(Err(e)),
        }
    } else {
        Some(Err(DataDecodingError::UnexpectedCharacter("ASCII içinde geçersiz", ch)))
    }
}

/// Decodes ASCII codewords until the data ends or another mode is latched.
pub fn decode_ascii(
    data: &mut Reader,
    out: &mut Vec<u8>,
    ecis: &mut Vec<(usize, u32)>,
    fnc1: &mut Option<Fnc1Position>,
) -> (r: Result<EncodationType, DataDecodingError>)
    requires
        old(data).wf(),
    ensures
        final(data).wf(),
        final(data).data == old(data).data,
        match spec_ascii(
            old(data).data@,
            old(data).pos as int,
            old(out)@,
            old(ecis)@,
            *old(fnc1),
            false,
        ) {
            Ok((p, m, o, e, f)) => r == Ok::<EncodationType, DataDecodingError>(m)
                && final(data).pos == p && final(out)@ == o && final(ecis)@ == e
                && *final(fnc1) == f,
            Err(e) => r == Err::<EncodationType, DataDecodingError>(e),
        },
        r matches Ok(m) ==> (m == EncodationType::Ascii ==> final(data).pos == final(data).data@.len())
            && (m != EncodationType::Ascii ==> final(data).pos > old(data).pos),
{
    let ghost d = data.data@;
    let ghost p0 = data.pos as int;
    let mut upper_shift = false;
    while !data.is_empty()
        invariant
            data.wf(),
            data.data == old(data).data,
            d == data.data@,
            p0 == old(data).pos,
            p0 <= data.pos,
            spec_ascii(d, data.pos as int, out@, ecis@, *fnc1, upper_shift) == spec_ascii(
                d,
                p0,
                old(out)@,
                old(ecis)@,
                *old(fnc1),
                false,
            ),
        decreases d.len() - data.pos,
    {
        let ghost before = data.pos as int;
        let ghost o0 = out@;
        let ghost e0 = ecis@;
        let ghost f0 = *fnc1;
        let ghost u0 = upper_shift;
        let ghost step = spec_ascii_step(d, before, out@, ecis@, *fnc1, upper_shift);
        assert(spec_ascii(d, before, o0, e0, f0, u0) == match step {
            AsciiStep::Next(p, o, e, f, u) => if before < p <= d.len() {
                spec_ascii(d, p, o, e, f, u)
            } else {
                Err(DataDecodingError::UnexpectedEnd)
            },
            AsciiStep::Done(r) => r,
        });
        let r = ascii_step(data, out, ecis, fnc1, &mut upper_shift);
        match r {
            Some(res) => {
                return res;
            },
            None => {},
        }
    }
    proof {
        reveal(spec_ascii_step);
    }
    if upper_shift {
        return Err(DataDecodingError::UnexpectedEnd);
    }
    Ok(EncodationType::Ascii)
}

// ---------------------------------------------------------------------------
// Base256
// ---------------------------------------------------------------------------

/// Base256 decoding from `pos` (7.2.8): a length field, then that many
/// randomized bytes. A length of 0 means "up to the end of the data".
pub open spec fn spec_base256(d: Seq<u8>, pos: int, out: Seq<u8>) -> Result<
    (int, Seq<u8>),
    DataDecodingError,
> {
    if pos < 0 || pos >= d.len() {
        Err(DataDecodingError::UnexpectedEnd)
    } else {
        let ch1 = spec_derandomize_255(d[pos], pos + 1) as int;
        if ch1 >= 250 && pos + 1 >= d.len() {
            Err(DataDecodingError::UnexpectedEnd)
        } else {
            let start = if ch1 >= 250 {
                pos + 2
            } else {
                pos + 1
            };
            let length = if ch1 == 0 {
                d.len() - (pos + 1)
            } else if ch1 < 250 {
                ch1
            } else {
                250 * (ch1 - 249) + spec_derandomize_255(d[pos + 1], pos + 2)
            };
            if start + length > d.len() {
                Err(DataDecodingError::UnexpectedEnd)
            } else {
                Ok(
                    (
                        start + length,
                        out + Seq::new(
                            length as nat,
                            |j: int| spec_derandomize_255(d[start + j], start + j + 1),
                        ),
                    ),
                )
            }
        }
    }
}

/// Decodes a Base256 field; the mode returns to ASCII afterwards.
pub fn decode_base256(data: &mut Reader, out: &mut Vec<u8>) -> (r: Result<
    EncodationType,
    DataDecodingError,
>)
    requires
        old(data).wf(),
    ensures
        final(data).wf(),
        final(data).data == old(data).data,
        match spec_base256(old(data).data@, old(data).pos as int, old(out)@) {
            Ok((p, o)) => r == Ok::<EncodationType, DataDecodingError>(EncodationType::Ascii)
                && final(data).pos == p && final(out)@ == o,
            Err(e) => r == Err::<EncodationType, DataDecodingError>(e),
        },
        r is Ok ==> final(data).pos > old(data).pos,
{
    let ghost d = data.data@;
    let ghost p0 = data.pos as int;
    let ch1 = data.eat()?;
    let ch1: usize = derandomize_255_state(ch1, data.position()) as usize;
    let length: usize = if ch1 == 0 {
        data.len()
    } else if ch1 < 250 {
        ch1
    } else {
        let ch2 = data.eat()?;
        let ch2: usize = derandomize_255_state(ch2, data.position()) as usize;
        250 * (ch1 - 249) + ch2
    };
    let ghost start = data.pos as int;
    let ghost out0 = out@;
    proof {
        let c1 = spec_derandomize_255(d[p0], p0 + 1) as int;
        assert(c1 == ch1);
        assert(start == if c1 >= 250 { p0 + 2 } else { p0 + 1 });
        assert(length == if c1 == 0 {
            d.len() - (p0 + 1)
        } else if c1 < 250 {
            c1
        } else {
            250 * (c1 - 249) + spec_derandomize_255(d[p0 + 1], p0 + 2)
        });
    }
    let mut i: usize = 0;
    while i < length
        invariant
            p0 == old(data).pos,
            out0 == old(out)@,
            start + length > d.len() ==> spec_base256(d, p0, out0) == Err::<(int, Seq<u8>), DataDecodingError>(DataDecodingError::UnexpectedEnd),
            start + length <= d.len() ==> spec_base256(d, p0, out0) == Ok::<(int, Seq<u8>), DataDecodingError>((start + length, out0 + Seq::new(
                length as nat,
                |j: int| spec_derandomize_255(d[start + j], start + j + 1),
            ))),
            start > p0,
            data.wf(),
            data.data == old(data).data,
            d == data.data@,
            i <= length,
            data.pos == start + i,
            out@ == out0 + Seq::new(
                i as nat,
                |j: int| spec_derandomize_255(d[start + j], start + j + 1),
            ),
        decreases length - i,
    {
        let ch = data.eat()?;
        out.push(derandomize_255_state(ch, data.position()));
        i += 1;
        proof {
            assert(out@ =~= out0 + Seq::new(
                i as nat,
                |j: int| spec_derandomize_255(d[start + j], start + j + 1),
            ));
        }
    }
    Ok(EncodationType::Ascii)
}

// ---------------------------------------------------------------------------
// EDIFACT
// ---------------------------------------------------------------------------

/// The byte of an EDIFACT value (7.2.7): values 32..=63 stand for themselves,
/// values 0..=31 for 64..=95.
pub open spec fn spec_edifact_char(v: int) -> u8 {
    if v >= 32 {
        v as u8
    } else {
        (v + 64) as u8
    }
}

/// The `k`-th 6-bit value of the three bytes `b0 b1 b2`.
#[verifier::opaque]
pub open spec fn spec_edifact_value(b0: u8, b1: u8, b2: u8, k: int) -> int {
    let n = b0 * 65536 + b1 * 256 + b2;
    if k == 0 {
        n / 262144
    } else if k == 1 {
        (n / 4096) % 64
    } else if k == 2 {
        (n / 64) % 64
    } else {
        n % 64
    }
}

/// EDIFACT decoding from `pos`: groups of three codewords hold four values,
/// the value 31 returns to ASCII; at most two codewords at the end are ASCII.
pub open spec fn spec_edifact(d: Seq<u8>, pos: int, out: Seq<u8>) -> (int, Seq<u8>)
    decreases d.len() - pos,
{
    if pos < 0 || d.len() - pos <= 2 {
        (pos, out)
    } else if d[pos] / 4 == EDIFACT_UNLATCH {
        (pos + 1, out)
    } else {
        let (b0, b1, b2) = (d[pos], d[pos + 1], d[pos + 2]);
        let c0 = spec_edifact_char(spec_edifact_value(b0, b1, b2, 0));
        let c1 = spec_edifact_char(spec_edifact_value(b0, b1, b2, 1));
        let c2 = spec_edifact_char(spec_edifact_value(b0, b1, b2, 2));
        let c3 = spec_edifact_char(spec_edifact_value(b0, b1, b2, 3));
        if spec_edifact_value(b0, b1, b2, 1) == EDIFACT_UNLATCH {
            (pos + 2, out.push(c0))
        } else if spec_edifact_value(b0, b1, b2, 2) == EDIFACT_UNLATCH {
            (pos + 3, out.push(c0).push(c1))
        } else if spec_edifact_value(b0, b1, b2, 3) == EDIFACT_UNLATCH {
            (pos + 3, out.push(c0).push(c1).push(c2))
        } else {
            spec_edifact(d, pos + 3, out.push(c0).push(c1).push(c2).push(c3))
        }
    }
}

fn dec_edifact_char(ch: u8) -> (r: u8)
    requires
        ch < 64,
    ensures
        r == spec_edifact_char(ch as int),
{
    assert(ch < 64 ==> ((ch & 0b10_0000) != 0) == (ch >= 32)) by (bit_vector);
    assert(ch < 32 ==> (ch | 0b0100_0000) == ch + 64) by (bit_vector);
    if (ch & 0b10_0000) != 0 {
        ch
    } else {
        ch | 0b0100_0000
    }
}

/// The three bytes as one 24-bit number.
pub open spec fn spec_chunk(b0: u8, b1: u8, b2: u8) -> u32 {
    ((b0 as u32) << 16u32) | ((b1 as u32) << 8u32) | (b2 as u32)
}

proof fn lemma_edifact_chunk(b0: u8, b1: u8, b2: u8)
    ensures
        ({
            let chunk: u32 = spec_chunk(b0, b1, b2);
            &&& (chunk >> 18u32) < 64
            &&& (chunk >> 18u32) as u8 == b0 / 4
            &&& ((chunk >> 12u32) & 63u32) == spec_edifact_value(b0, b1, b2, 1)
            &&& ((chunk >> 6u32) & 63u32) == spec_edifact_value(b0, b1, b2, 2)
            &&& (chunk & 63u32) == spec_edifact_value(b0, b1, b2, 3)
            &&& b0 / 4 == spec_edifact_value(b0, b1, b2, 0)
            &&& b0 >> 2u8 == b0 / 4
            &&& 0 <= spec_edifact_value(b0, b1, b2, 0) < 64
            &&& 0 <= spec_edifact_value(b0, b1, b2, 1) < 64
            &&& 0 <= spec_edifact_value(b0, b1, b2, 2) < 64
            &&& 0 <= spec_edifact_value(b0, b1, b2, 3) < 64
        }),
{
    reveal(spec_edifact_value);
    assert(b0 >> 2u8 == b0 / 4) by (bit_vector);
    assert((b0 as u32) < 256 ==> (((b0 as u32) << 16u32) | ((b1 as u32) << 8u32) | (b2 as u32))
        >> 18u32 < 64) by (bit_vector);
    let n: u32 = (b0 * 65536 + b1 * 256 + b2) as u32;
    assert(((b0 as u32) << 16u32) | ((b1 as u32) << 8u32) | (b2 as u32) == b0 * 65536 + b1 * 256
        + b2) by (bit_vector);
    assert((n >> 18u32) == n / 262144) by (bit_vector);
    assert(((n >> 12u32) & 63u32) == (n / 4096) % 64) by (bit_vector);
    assert(((n >> 6u32) & 63u32) == (n / 64) % 64) by (bit_vector);
    assert((n & 63u32) == n % 64) by (bit_vector);
    assert(n / 262144 == b0 / 4) by (nonlinear_arith)
        requires
            n == b0 * 65536 + b1 * 256 + b2,
            b0 < 256,
            b1 < 256,
            b2 < 256,
    ;
}

/// Decodes EDIFACT codewords; the mode returns to ASCII afterwards.
pub fn decode_edifact(data: &mut Reader, out: &mut Vec<u8>) -> (r: Result<
    EncodationType,
    DataDecodingError,
>)
    requires
        old(data).wf(),
    ensures
        final(data).wf(),
        final(data).data == old(data).data,
        r == Ok::<EncodationType, DataDecodingError>(EncodationType::Ascii),
        (final(data).pos as int, final(out)@) == spec_edifact(
            old(data).data@,
            old(data).pos as int,
            old(out)@,
        ),
        final(data).pos >= old(data).pos,
{
    let ghost d = data.data@;
    loop
        invariant
            data.wf(),
            data.data == old(data).data,
            d == data.data@,
            data.pos >= old(data).pos,
            spec_edifact(d, data.pos as int, out@) == spec_edifact(
                d,
                old(data).pos as int,
                old(out)@,
            ),
        decreases d.len() - data.pos,
    {
        if data.len() <= 2 {
            // The rest is encoded in ASCII.
            return Ok(EncodationType::Ascii);
        }
        let ghost p = data.pos as int;
        let ghost o = out@;
        let b0 = data.data[data.pos];
        let b1 = data.data[data.pos + 1];
        let b2 = data.data[data.pos + 2];
        proof { lemma_edifact_chunk(b0, b1, b2); }
        if (b0 >> 2) == EDIFACT_UNLATCH {
            data.pos = data.pos + 1;
            assert(spec_edifact(d, p, o) == (p + 1, o));
            return Ok(EncodationType::Ascii);
        }
        let chunk: u32 = ((b0 as u32) << 16) | ((b1 as u32) << 8) | (b2 as u32);
        assert(chunk == spec_chunk(b0, b1, b2));
        let val = (chunk >> 18) as u8;
        out.push(dec_edifact_char(val));
        let val = ((chunk >> 12) & 0b11_1111) as u8;
        if val == EDIFACT_UNLATCH {
            data.pos = data.pos + 2;
            return Ok(EncodationType::Ascii);
        }
        out.push(dec_edifact_char(val));
        data.pos = data.pos + 3;
        let val = ((chunk >> 6) & 0b11_1111) as u8;
        if val == EDIFACT_UNLATCH {
            return Ok(EncodationType::Ascii);
        }
        out.push(dec_edifact_char(val));
        let val = (chunk & 0b11_1111) as u8;
        if val == EDIFACT_UNLATCH {
            return Ok(EncodationType::Ascii);
        }
        out.push(dec_edifact_char(val));
        proof {
            assert(spec_edifact(d, p, o) == spec_edifact(d, data.pos as int, out@));
        }
    }
}

// ---------------------------------------------------------------------------
// C40, Text and X12
// ---------------------------------------------------------------------------

/// The three values that a pair of C40/Text/X12 codewords stands for (7.2.5.2):
/// `256 * a + b == 1600 * c1 + 40 * c2 + c3 + 1`.
#[verifier::opaque]
pub open spec fn spec_c40_tuple(a: u8, b: u8) -> Result<(u8, u8, u8), DataDecodingError> {
    let encoded = a * 256 + b;
    if !(1 <= encoded <= 64000) {
        Err(
            DataDecodingError::UnexpectedCharacter(
                "C40/Text/X12 codeword çiftinin 16-bit değeri 1..=64000 aralığında değil",
                a,
            ),
        )
    } else {
        let full = encoded - 1;
        Ok(((full / 1600) as u8, ((full % 1600) / 40) as u8, (full % 40) as u8))
    }
}

pub fn decode_c40_tuple(a: u8, b: u8) -> (r: Result<(u8, u8, u8), DataDecodingError>)
    ensures
        r == spec_c40_tuple(a, b),
        r matches Ok((c1, c2, c3)) ==> c1 < 40 && c2 < 40 && c3 < 40,
{
    reveal(spec_c40_tuple);
    let encoded: u16 = (a as u16) * 256 + b as u16;
    // 7.2.5.3: the tuple formula only produces the range 1..=64000.
    if !(1 <= encoded && encoded <= 64000) {
        return Err(
            DataDecodingError::UnexpectedCharacter(
                "C40/Text/X12 codeword çiftinin 16-bit değeri 1..=64000 aralığında değil",
                a,
            ),
        );
    }
    let mut full: u16 = encoded - 1;
    let ghost f0 = full as int;
    let tmp: u16 = full / 1600;
    let c1 = tmp as u8;
    assert(f0 - (f0 / 1600) * 1600 == f0 % 1600 && f0 / 1600 < 40) by (nonlinear_arith)
        requires 0 <= f0 < 64000;
    full -= tmp * 1600;
    let tmp: u16 = full / 40;
    let ghost f1 = full as int;
    assert(f1 - (f1 / 40) * 40 == f0 % 40 && f1 / 40 < 40) by (nonlinear_arith)
        requires 0 <= f0, f1 == f0 % 1600;
    Ok((c1, tmp as u8, (full - tmp * 40) as u8))
}

/// The byte of an X12 value (7.2.6).
pub open spec fn spec_x12_value(ch: u8) -> Result<u8, DataDecodingError> {
    if ch == 0 {
        Ok(13u8)
    } else if ch == 1 {
        Ok(42u8)
    } else if ch == 2 {
        Ok(62u8)
    } else if ch == 3 {
        Ok(32u8)
    } else if 4 <= ch <= 13 {
        Ok((48 + ch - 4) as u8)
    } else if 14 <= ch <= 39 {
        Ok((65 + ch - 14) as u8)
    } else {
        Err(DataDecodingError::UnexpectedCharacter("X12 içinde geçersiz", ch))
    }
}

fn dec_x12_val(ch: u8) -> (r: Result<u8, DataDecodingError>)
    ensures
        r == spec_x12_value(ch),
{
    if ch == 0 {
        Ok(13)
    } else if ch == 1 {
        Ok(42)
    } else if ch == 2 {
        Ok(62)
    } else if ch == 3 {
        Ok(32)
    } else if 4 <= ch && ch <= 13 {
        Ok(48 + (ch - 4))
    } else if 14 <= ch && ch <= 39 {
        Ok(65 + (ch - 14))
    } else {
        Err(DataDecodingError::UnexpectedCharacter("X12 içinde geçersiz", ch))
    }
}

/// Position after a trailing UNLATCH: a single UNLATCH codeword left at the end is read.
pub open spec fn spec_after_unlatch(d: Seq<u8>, p: int) -> int {
    if d.len() - p == 1 && d[p] == UNLATCH {
        p + 1
    } else {
        p
    }
}

/// X12 decoding from `pos`: codeword pairs of three values until UNLATCH or
/// until at most one codeword is left.
pub open spec fn spec_x12(d: Seq<u8>, pos: int, out: Seq<u8>) -> Result<
    (int, Seq<u8>),
    DataDecodingError,
>
    decreases d.len() - pos,
{
    if pos < 0 || d.len() - pos <= 1 {
        Ok((spec_after_unlatch(d, pos), out))
    } else if d[pos] == UNLATCH {
        Ok((spec_after_unlatch(d, pos + 1), out))
    } else {
        match spec_c40_tuple(d[pos], d[pos + 1]) {
            Err(e) => Err(e),
            Ok((c1, c2, c3)) => match (spec_x12_value(c1), spec_x12_value(c2), spec_x12_value(c3)) {
                (Ok(v1), Ok(v2), Ok(v3)) => spec_x12(d, pos + 2, out.push(v1).push(v2).push(v3)),
                (Err(e), _, _) => Err(e),
                (Ok(_), Err(e), _) => Err(e),
                (Ok(_), Ok(_), Err(e)) => Err(e),
            },
        }
    }
}

/// Decodes X12 codewords; the mode returns to ASCII afterwards.
pub fn decode_x12(data: &mut Reader, out: &mut Vec<u8>) -> (r: Result<
    EncodationType,
    DataDecodingError,
>)
    requires
        old(data).wf(),
    ensures
        final(data).wf(),
        final(data).data == old(data).data,
        match spec_x12(old(data).data@, old(data).pos as int, old(out)@) {
            Ok((p, o)) => r == Ok::<EncodationType, DataDecodingError>(EncodationType::Ascii)
                && final(data).pos == p && final(out)@ == o,
            Err(e) => r == Err::<EncodationType, DataDecodingError>(e),
        },
        r is Ok ==> final(data).pos >= old(data).pos,
{
    let ghost d = data.data@;
    loop
        invariant_except_break
            spec_x12(d, data.pos as int, out@) == spec_x12(d, old(data).pos as int, old(out)@),
        invariant
            data.wf(),
            data.data == old(data).data,
            d == data.data@,
            data.pos >= old(data).pos,
        ensures
            spec_x12(d, old(data).pos as int, old(out)@) == Ok::<(int, Seq<u8>), DataDecodingError>(
                (spec_after_unlatch(d, data.pos as int), out@),
            ),
        decreases d.len() - data.pos,
    {
        if data.len() <= 1 {
            break;
        }
        let ghost p = data.pos as int;
        let ghost o = out@;
        let first = data.eat()?;
        if first == UNLATCH {
            break;
        }
        let second = data.eat()?;
        let (c1, c2, c3) = decode_c40_tuple(first, second)?;
        let v1 = dec_x12_val(c1)?;
        let v2 = dec_x12_val(c2)?;
        let v3 = dec_x12_val(c3)?;
        out.push(v1);
        out.push(v2);
        out.push(v3);
        proof {
            assert(spec_x12(d, p, o) == spec_x12(d, data.pos as int, out@));
        }
    }
    if data.len() == 1 && data.peek(0) == Some(UNLATCH) {
        // A single UNLATCH at the end of the data.
        data.pos = data.pos + 1;
    }
    Ok(EncodationType::Ascii)
}

/// Base set of C40: space, digits, upper case letters.
pub const BASE_C40: [u8; 37] = [32, 48, 49, 50, 51, 52, 53, 54, 55, 56, 57, 65, 66, 67, 68, 69, 70, 71, 72, 73, 74, 75, 76, 77, 78, 79, 80, 81, 82, 83, 84, 85, 86, 87, 88, 89, 90];

/// Shift 3 set of C40: back quote, lower case letters, `{|}~` and DEL.
pub const SHIFT3_C40: [u8; 32] = [96, 97, 98, 99, 100, 101, 102, 103, 104, 105, 106, 107, 108, 109, 110, 111, 112, 113, 114, 115, 116, 117, 118, 119, 120, 121, 122, 123, 124, 125, 126, 127];

/// Base set of Text: space, digits, lower case letters.
pub const BASE_TEXT: [u8; 37] = [32, 48, 49, 50, 51, 52, 53, 54, 55, 56, 57, 97, 98, 99, 100, 101, 102, 103, 104, 105, 106, 107, 108, 109, 110, 111, 112, 113, 114, 115, 116, 117, 118, 119, 120, 121, 122];

/// Shift 3 set of Text: back quote, upper case letters, `{|}~` and DEL.
pub const SHIFT3_TEXT: [u8; 32] = [96, 65, 66, 67, 68, 69, 70, 71, 72, 73, 74, 75, 76, 77, 78, 79, 80, 81, 82, 83, 84, 85, 86, 87, 88, 89, 90, 123, 124, 125, 126, 127];

/// Shift 2 set of C40 and Text: punctuation.
pub const SHIFT2: [u8; 27] = [33, 34, 35, 36, 37, 38, 39, 40, 41, 42, 43, 44, 45, 46, 47, 58, 59, 60, 61, 62, 63, 64, 91, 92, 93, 94, 95];

/// The character sets are 7-bit.
pub proof fn lemma_c40_tables()
    ensures
        forall|i: int| 0 <= i < 37 ==> #[trigger] BASE_C40[i] < 128 && BASE_TEXT[i] < 128,
        forall|i: int| 0 <= i < 32 ==> #[trigger] SHIFT3_C40[i] < 128 && SHIFT3_TEXT[i] < 128,
        forall|i: int| 0 <= i < 27 ==> #[trigger] SHIFT2[i] < 128,
{
}

/// Pushes a value of a set, with 128 added after an Upper Shift.
pub open spec fn spec_c40_emit(out: Seq<u8>, upper: bool, t: u8) -> Result<
    (u8, bool, Seq<u8>),
    DataDecodingError,
> {
    if upper {
        Ok((0u8, false, out.push((t + 128) as u8)))
    } else {
        Ok((0u8, false, out.push(t)))
    }
}

/// One C40/Text value `ch` in the shift state `shift` (7.2.5): the new shift
/// state, Upper Shift flag and output.
#[verifier::opaque]
pub open spec fn spec_c40_value(
    ch: u8,
    shift: u8,
    upper: bool,
    out: Seq<u8>,
    base: Seq<u8>,
    shift3: Seq<u8>,
) -> Result<(u8, bool, Seq<u8>), DataDecodingError> {
    if shift == 0 {
        if ch <= 2 {
            Ok(((ch + 1) as u8, upper, out))
        } else if ch <= 39 {
            spec_c40_emit(out, upper, base[ch - 3])
        } else {
            Err(DataDecodingError::UnexpectedCharacter("C40/Text base set içinde geçersiz", ch))
        }
    } else if shift == 1 {
        if ch <= 31 {
            spec_c40_emit(out, upper, ch)
        } else {
            Err(DataDecodingError::UnexpectedCharacter("C40/Text shift1 set içinde geçersiz", ch))
        }
    } else if shift == 2 {
        if ch <= 26 {
            spec_c40_emit(out, upper, SHIFT2[ch as int])
        } else if ch == 27 {
            // FNC1 in C40/Text cannot be in the first two positions, so it
            // always separates fields and is transmitted as GS (12.2).
            Ok((0u8, upper, out.push(29u8)))
        } else if ch == 30 {
            Ok((0u8, true, out))
        } else {
            Err(DataDecodingError::UnexpectedCharacter("C40/Text shift2 set içinde geçersiz", ch))
        }
    } else {
        if ch <= 31 {
            spec_c40_emit(out, upper, shift3[ch as int])
        } else {
            Err(DataDecodingError::UnexpectedCharacter("C40/Text shift3 set içinde geçersiz", ch))
        }
    }
}

/// Three values in a row.
pub open spec fn spec_c40_three(
    c: (u8, u8, u8),
    shift: u8,
    upper: bool,
    out: Seq<u8>,
    base: Seq<u8>,
    shift3: Seq<u8>,
) -> Result<(u8, bool, Seq<u8>), DataDecodingError> {
    match spec_c40_value(c.0, shift, upper, out, base, shift3) {
        Err(e) => Err(e),
        Ok((s1, u1, o1)) => match spec_c40_value(c.1, s1, u1, o1, base, shift3) {
            Err(e) => Err(e),
            Ok((s2, u2, o2)) => spec_c40_value(c.2, s2, u2, o2, base, shift3),
        },
    }
}

/// End of C40/Text at position `p`: a shift left open is an error, except a
/// Shift 1 that pads the last triple (7.2.5.3 b, and before the UNLATCH or the
/// final ASCII codeword that rules c and d leave).
pub open spec fn spec_c40_finish(
    d: Seq<u8>,
    p: int,
    out: Seq<u8>,
    shift: u8,
    upper: bool,
) -> Result<(int, Seq<u8>), DataDecodingError> {
    let q = spec_after_unlatch(d, p);
    let valid_shift1_padding = shift == 1 && !upper;
    if (shift != 0 || upper) && !valid_shift1_padding {
        Err(DataDecodingError::UnexpectedEnd)
    } else {
        Ok((q, out))
    }
}

/// C40/Text decoding from `pos` in the shift state `shift`.
pub open spec fn spec_c40_like(
    d: Seq<u8>,
    pos: int,
    out: Seq<u8>,
    shift: u8,
    upper: bool,
    base: Seq<u8>,
    shift3: Seq<u8>,
) -> Result<(int, Seq<u8>), DataDecodingError>
    decreases d.len() - pos,
{
    if pos < 0 || d.len() - pos <= 1 {
        spec_c40_finish(d, pos, out, shift, upper)
    } else if d[pos] == UNLATCH {
        spec_c40_finish(d, pos + 1, out, shift, upper)
    } else {
        match spec_c40_tuple(d[pos], d[pos + 1]) {
            Err(e) => Err(e),
            Ok(c) => match spec_c40_three(c, shift, upper, out, base, shift3) {
                Err(e) => Err(e),
                Ok((s1, u1, o1)) => spec_c40_like(d, pos + 2, o1, s1, u1, base, shift3),
            },
        }
    }
}

fn c40_value(
    ch: u8,
    shift: &mut u8,
    upper_shift: &mut bool,
    out: &mut Vec<u8>,
    map_base: &[u8; 37],
    map_shift3: &[u8; 32],
) -> (r: Result<(), DataDecodingError>)
    requires
        *old(shift) <= 3,
        forall|i: int| 0 <= i < 37 ==> #[trigger] map_base@[i] < 128,
        forall|i: int| 0 <= i < 32 ==> #[trigger] map_shift3@[i] < 128,
    ensures
        *final(shift) <= 3,
        match spec_c40_value(ch, *old(shift), *old(upper_shift), old(out)@, map_base@, map_shift3@) {
            Ok((s, u, o)) => r is Ok && *final(shift) == s && *final(upper_shift) == u
                && final(out)@ == o,
            Err(e) => r == Err::<(), DataDecodingError>(e),
        },
{
    reveal(spec_c40_value);
    proof { lemma_c40_tables(); }
    if *shift == 0 {
        if ch <= 2 {
            *shift = ch + 1;
        } else if ch <= 39 {
            let text = map_base[(ch - 3) as usize];
            if *upper_shift {
                out.push(text + 128);
                *upper_shift = false;
            } else {
                out.push(text);
            }
        } else {
            return Err(DataDecodingError::UnexpectedCharacter("C40/Text base set içinde geçersiz", ch));
        }
    } else if *shift == 1 {
        if ch <= 31 {
            if *upper_shift {
                out.push(ch + 128);
                *upper_shift = false;
            } else {
                out.push(ch);
            }
        } else {
            return Err(DataDecodingError::UnexpectedCharacter("C40/Text shift1 set içinde geçersiz", ch));
        }
        *shift = 0;
    } else if *shift == 2 {
        if ch <= 26 {
            let text = SHIFT2[ch as usize];
            if *upper_shift {
                out.push(text + 128);
                *upper_shift = false;
            } else {
                out.push(text);
            }
        } else if ch == 27 {
            out.push(29);
        } else if ch == 30 {
            *upper_shift = true;
        } else {
            return Err(DataDecodingError::UnexpectedCharacter("C40/Text shift2 set içinde geçersiz", ch));
        }
        *shift = 0;
    } else {
        if ch <= 31 {
            let text = map_shift3[ch as usize];
            if *upper_shift {
                out.push(text + 128);
                *upper_shift = false;
            } else {
                out.push(text);
            }
        } else {
            return Err(DataDecodingError::UnexpectedCharacter("C40/Text shift3 set içinde geçersiz", ch));
        }
        *shift = 0;
    }
    Ok(())
}

/// Decodes C40 or Text codewords, with the base and shift 3 sets of the mode.
pub fn decode_c40_like(
    data: &mut Reader,
    out: &mut Vec<u8>,
    map_base: &[u8; 37],
    map_shift3: &[u8; 32],
) -> (r: Result<EncodationType, DataDecodingError>)
    requires
        old(data).wf(),
        forall|i: int| 0 <= i < 37 ==> #[trigger] map_base@[i] < 128,
        forall|i: int| 0 <= i < 32 ==> #[trigger] map_shift3@[i] < 128,
    ensures
        final(data).wf(),
        final(data).data == old(data).data,
        match spec_c40_like(
            old(data).data@,
            old(data).pos as int,
            old(out)@,
            0,
            false,
            map_base@,
            map_shift3@,
        ) {
            Ok((p, o)) => r == Ok::<EncodationType, DataDecodingError>(EncodationType::Ascii)
                && final(data).pos == p && final(out)@ == o,
            Err(e) => r == Err::<EncodationType, DataDecodingError>(e),
        },
        r is Ok ==> final(data).pos >= old(data).pos,
{
    let ghost d = data.data@;
    let mut shift: u8 = 0;
    let mut upper_shift = false;
    loop
        invariant_except_break
            spec_c40_like(d, data.pos as int, out@, shift, upper_shift, map_base@, map_shift3@)
                == spec_c40_like(d, old(data).pos as int, old(out)@, 0, false, map_base@, map_shift3@),
        invariant
            forall|i: int| 0 <= i < 37 ==> #[trigger] map_base@[i] < 128,
            forall|i: int| 0 <= i < 32 ==> #[trigger] map_shift3@[i] < 128,
            data.wf(),
            data.data == old(data).data,
            d == data.data@,
            data.pos >= old(data).pos,
            shift <= 3,
        ensures
            spec_c40_like(d, old(data).pos as int, old(out)@, 0, false, map_base@, map_shift3@)
                == spec_c40_finish(d, data.pos as int, out@, shift, upper_shift),
        decreases d.len() - data.pos,
    {
        if data.len() <= 1 {
            break;
        }
        let ghost p = data.pos as int;
        let ghost o = out@;
        let ghost s0 = shift;
        let ghost u0 = upper_shift;
        let first = data.eat()?;
        if first == UNLATCH {
            break;
        }
        let second = data.eat()?;
        let (c1, c2, c3) = decode_c40_tuple(first, second)?;
        c40_value(c1, &mut shift, &mut upper_shift, out, map_base, map_shift3)?;
        c40_value(c2, &mut shift, &mut upper_shift, out, map_base, map_shift3)?;
        c40_value(c3, &mut shift, &mut upper_shift, out, map_base, map_shift3)?;
        proof {
            assert(spec_c40_like(d, p, o, s0, u0, map_base@, map_shift3@) == spec_c40_like(
                d,
                data.pos as int,
                out@,
                shift,
                upper_shift,
                map_base@,
                map_shift3@,
            ));
        }
    }
    if data.len() == 1 && data.peek(0) == Some(UNLATCH) {
        // A single UNLATCH at the end of the data.
        data.pos = data.pos + 1;
    }
    // Only a Shift 1 that pads the last triple counts as complete; any other
    // open shift or Upper Shift is corrupt data.
    let valid_shift1_padding = shift == 1 && !upper_shift;
    if (shift != 0 || upper_shift) && !valid_shift1_padding {
        return Err(DataDecodingError::UnexpectedEnd);
    }
    Ok(EncodationType::Ascii)
}

} // verus!

verus! {

/// Whether `c` is in the X12 character set: CR, `*`, `>`, space, digits and
/// upper-case letters.
pub open spec fn x12_encodable(c: u8) -> bool {
    c == 13 || c == 42 || c == 62 || c == 32 || (48 <= c <= 57) || (65 <= c <= 90)
}

/// The X12 value of an X12 character (7.2.6, table 6).
pub open spec fn x12_code(c: u8) -> u8 {
    if c == 13 {
        0
    } else if c == 42 {
        1
    } else if c == 62 {
        2
    } else if c == 32 {
        3
    } else if 48 <= c <= 57 {
        (c - 48 + 4) as u8
    } else {
        (c - 65 + 14) as u8
    }
}

/// The X12 codewords of a text whose length is a multiple of three: each
/// triple of values packed into a codeword pair.
pub open spec fn x12_codewords(text: Seq<u8>) -> Seq<u8>
    decreases text.len(),
{
    if text.len() < 3 {
        Seq::empty()
    } else {
        let e = crate::encodation::c40::spec_c40_pair_value(x12_code(text[0]), x12_code(text[1]), x12_code(text[2]));
        seq![(e / 256) as u8, (e % 256) as u8] + x12_codewords(text.skip(3))
    }
}

/// Each X12 character decodes from its value: CR, `*`, `>`, space, the
/// digits from 4 on and the upper-case letters from 14 on.
pub proof fn lemma_x12_value_round_trip(c: u8)
    requires
        x12_encodable(c),
    ensures
        x12_code(c) < 40,
        spec_x12_value(x12_code(c)) == Ok::<u8, DataDecodingError>(c),
{
}

/// X12 decoding reads back any X12 text: the codewords of a text of X12
/// characters, whose length is a multiple of three, decode to the text.
pub proof fn lemma_x12_round_trip(prefix: Seq<u8>, text: Seq<u8>, out: Seq<u8>)
    requires
        text.len() % 3 == 0,
        forall|i: int| 0 <= i < text.len() ==> x12_encodable(#[trigger] text[i]),
    ensures
        spec_x12(prefix + x12_codewords(text), prefix.len() as int, out) == Ok::<(int, Seq<u8>), DataDecodingError>(
            ((prefix + x12_codewords(text)).len() as int, out + text),
        ),
    decreases text.len(),
{
    let d = prefix + x12_codewords(text);
    if text.len() < 3 {
        assert(text.len() == 0);
        assert(x12_codewords(text) =~= Seq::<u8>::empty());
        assert(d =~= prefix);
        assert(out + text =~= out);
    } else {
        let (c1, c2, c3) = (text[0], text[1], text[2]);
        lemma_x12_value_round_trip(c1);
        lemma_x12_value_round_trip(c2);
        lemma_x12_value_round_trip(c3);
        crate::encodation::c40::lemma_three_values_round_trip(x12_code(c1), x12_code(c2), x12_code(c3));
        let e = crate::encodation::c40::spec_c40_pair_value(x12_code(c1), x12_code(c2), x12_code(c3));
        let rest = text.skip(3);
        assert forall|i: int| 0 <= i < rest.len() implies x12_encodable(#[trigger] rest[i]) by {
            assert(rest[i] == text[i + 3]);
        }
        let prefix2 = prefix + seq![(e / 256) as u8, (e % 256) as u8];
        lemma_x12_round_trip(prefix2, rest, out.push(c1).push(c2).push(c3));
        assert(prefix2 + x12_codewords(rest) =~= d);
        assert(d[prefix.len() as int] == (e / 256) as u8);
        assert(d[prefix.len() as int + 1] == (e % 256) as u8);
        assert((e / 256) as u8 != UNLATCH);
        assert(out.push(c1).push(c2).push(c3) + rest =~= out + text);
    }
}

} // verus!

verus! {

/// The Text character sets (7.2.5.4, table 4): the basic set is space, the
/// digits and the lower-case letters; the Shift 3 set is the back quote,
/// the upper-case letters and `{|}~` DEL.
pub proof fn lemma_text_sets()
    ensures
        forall|i: int|
            0 <= i < 37 ==> #[trigger] BASE_TEXT@[i] == (if i == 0 {
                32
            } else if i <= 10 {
                i + 47
            } else {
                i + 86
            }),
        forall|i: int|
            0 <= i < 32 ==> #[trigger] SHIFT3_TEXT@[i] == (if i == 0 {
                96
            } else if i <= 26 {
                i + 64
            } else {
                i + 96
            }),
{
}

} // verus!

verus! {

/// The ASCII codewords (7.2.4, table 2) decode to what they stand for: the
/// codeword `b + 1` to the byte `b` up to 127, the codeword `130 + 10 x + y`
/// to the digits `x` and `y`, and after Upper Shift the codeword `b - 127`
/// to the byte `b` from 128 on.
pub proof fn lemma_ascii_codewords(
    d: Seq<u8>,
    pos: int,
    out: Seq<u8>,
    ecis: Seq<(usize, u32)>,
    fnc1: Option<Fnc1Position>,
    b: u8,
    x: u8,
    y: u8,
)
    requires
        0 <= pos < d.len(),
    ensures
        b <= 127 && d[pos] == b + 1 ==> spec_ascii_step(d, pos, out, ecis, fnc1, false) == AsciiStep::Next(
            pos + 1,
            out.push(b),
            ecis,
            fnc1,
            false,
        ),
        x <= 9 && y <= 9 && d[pos] == 130 + 10 * x + y ==> spec_ascii_step(d, pos, out, ecis, fnc1, false)
            == AsciiStep::Next(pos + 1, out.push((48 + x) as u8).push((48 + y) as u8), ecis, fnc1, false),
        b >= 128 && d[pos] == b - 127 ==> spec_ascii_step(d, pos, out, ecis, fnc1, true) == AsciiStep::Next(
            pos + 1,
            out.push(b),
            ecis,
            fnc1,
            false,
        ),
{
    reveal(spec_ascii_step);
    if x <= 9 && y <= 9 && d[pos] == 130 + 10 * x + y {
        let digit = d[pos] - 130;
        assert(digit == 10 * x + y);
        assert(digit / 10 == x && digit % 10 == y);
    }
}

} // verus!

verus! {

/// FNC1 in ASCII (7.2.4.7, 12.2): in the first symbol character it flags the
/// GS1 format, in the second the industry format, and it adds no byte; any
/// later FNC1, or one after such a flag, is the field separator GS (29).
pub proof fn lemma_ascii_fnc1(
    d: Seq<u8>,
    pos: int,
    out: Seq<u8>,
    ecis: Seq<(usize, u32)>,
    fnc1: Option<Fnc1Position>,
)
    requires
        0 <= pos < d.len(),
        d[pos] == ascii::FNC1,
    ensures
        pos == 0 && fnc1 is None ==> spec_ascii_step(d, pos, out, ecis, fnc1, false) == AsciiStep::Next(
            1,
            out,
            ecis,
            Some(Fnc1Position::First),
            false,
        ),
        pos == 1 && fnc1 is None ==> spec_ascii_step(d, pos, out, ecis, fnc1, false) == AsciiStep::Next(
            2,
            out,
            ecis,
            Some(Fnc1Position::Second),
            false,
        ),
        (pos >= 2 || fnc1 is Some) ==> spec_ascii_step(d, pos, out, ecis, fnc1, false) == AsciiStep::Next(
            pos + 1,
            out.push(29u8),
            ecis,
            fnc1,
            false,
        ),
{
    reveal(spec_ascii_step);
}

} // verus!
