//! Base256 encodation: a length field and randomized bytes (7.2.8).
use vstd::prelude::*;

use super::DataEncodingError;
use crate::decodation::DataDecodingError;
use crate::decodation::modes::{spec_base256, spec_derandomize_255};

verus! {

/// Applies the 255-state randomization to the byte at 1-based position `pos`.
pub open spec fn spec_randomize_255(ch: u8, pos: int) -> u8 {
    let pseudo_random = (149 * pos) % 255 + 1;
    let tmp = ch + pseudo_random;
    if tmp <= 255 {
        tmp as u8
    } else {
        (tmp - 256) as u8
    }
}

/// Applies the 255-state randomization of the standard.
///
/// `pos` is the 1-based position of the byte among all codewords.
pub fn randomize_255_state(ch: u8, pos: usize) -> (r: u8)
    ensures
        r == spec_randomize_255(ch, pos as int),
{
    proof { crate::decodation::modes::lemma_mod_reduce(pos as int, 255); }
    let pseudo_random: u16 = ((149 * (pos % 255)) % 255 + 1) as u16;
    let tmp: u16 = ch as u16 + pseudo_random;
    if tmp <= 255 {
        tmp as u8
    } else {
        (tmp - 256) as u8
    }
}

/// Removing the randomization gives the byte back, and so does applying it
/// to a byte whose randomization was removed.
pub proof fn lemma_randomize_255_round_trip(ch: u8, pos: int)
    requires
        pos >= 0,
    ensures
        spec_derandomize_255(spec_randomize_255(ch, pos), pos) == ch,
        spec_randomize_255(spec_derandomize_255(ch, pos), pos) == ch,
{
}

/// The length field of a Base256 field with `n` data bytes (at most 1555).
pub open spec fn base256_length_header(n: int) -> Seq<u8> {
    if n <= 249 {
        seq![n as u8]
    } else {
        seq![(n / 250 + 249) as u8, (n % 250) as u8]
    }
}

/// The field from `start` before randomization: with a length field, the
/// header and the data bytes after the placeholder at `start`; without one,
/// the codewords from `start` as they are.
pub open spec fn base256_field(cw: Seq<u8>, start: int, with_length: bool) -> Seq<u8> {
    if with_length {
        base256_length_header(cw.len() - start - 1) + cw.subrange(start + 1, cw.len() as int)
    } else {
        cw.subrange(start, cw.len() as int)
    }
}

/// Each byte of `body`, randomized at its position after `start`.
pub open spec fn base256_randomized(body: Seq<u8>, start: int) -> Seq<u8> {
    Seq::new(body.len(), |i: int| spec_randomize_255(body[i], start + i + 1))
}

/// Writes the length field of the Base256 field that starts at the
/// placeholder codeword `start`, then randomizes the field.
///
/// `has_more_characters` tells whether input remains after the field and
/// `space_left` how many codewords the smallest fitting symbol has left
/// (`None` when none fits). The length field is written unless the field
/// runs to the very end of the symbol, where the placeholder stays and
/// means "up to the end".
///
/// # Errors
///
/// Fails with [DataEncodingError::TooMuchOrIllegalData] when no symbol fits.
pub fn write_length(
    codewords: &mut Vec<u8>,
    start: usize,
    has_more_characters: bool,
    space_left: Option<usize>,
) -> (r: Result<(), DataEncodingError>)
    requires
        start <= old(codewords).len(),
        (has_more_characters || (space_left is Some && space_left->0 > 0)) ==> (start < old(
            codewords,
        ).len() && old(codewords).len() - start - 1 <= 1555),
    ensures
        space_left is None ==> r == Err::<(), DataEncodingError>(
            DataEncodingError::TooMuchOrIllegalData,
        ) && final(codewords)@ == old(codewords)@,
        space_left is Some ==> r is Ok && final(codewords)@ == old(codewords)@.subrange(
            0,
            start as int,
        ) + base256_randomized(
            base256_field(
                old(codewords)@,
                start as int,
                has_more_characters || space_left->0 > 0,
            ),
            start as int,
        ),
{
    let space = match space_left {
        None => {
            return Err(DataEncodingError::TooMuchOrIllegalData);
        },
        Some(s) => s,
    };
    let ghost old_cw = codewords@;
    let ghost with_length = has_more_characters || space > 0;
    let mut data_written: usize = codewords.len() - start;
    if has_more_characters || space > 0 {
        let data_count: usize = data_written - 1;
        if data_count <= 249 {
            codewords.set(start, data_count as u8);
        } else {
            codewords.set(start, (data_count / 250 + 249) as u8);
            codewords.insert(start + 1, (data_count % 250) as u8);
            data_written += 1;
        }
    }
    let ghost body = base256_field(old_cw, start as int, with_length);
    proof {
        assert(codewords@.subrange(start as int, codewords@.len() as int) =~= body);
        assert(codewords@.subrange(0, start as int) =~= old_cw.subrange(0, start as int));
    }
    let mut i: usize = 0;
    while i < data_written
        invariant
            i <= data_written,
            start <= old_cw.len(),
            codewords@.len() == start + data_written,
            body.len() == data_written,
            codewords@.subrange(0, start as int) == old_cw.subrange(0, start as int),
            forall|j: int|
                0 <= j < i ==> #[trigger] codewords@[start + j] == spec_randomize_255(
                    body[j],
                    start + j + 1,
                ),
            forall|j: int| i <= j < data_written ==> #[trigger] codewords@[start + j] == body[j],
        decreases data_written - i,
    {
        let len = codewords.len();
        assert(start + i < len);
        let ch = codewords[start + i];
        let v = randomize_255_state(ch, start + i + 1);
        let ghost before = codewords@;
        codewords.set(start + i, v);
        proof {
            assert(codewords@.subrange(0, start as int) =~= before.subrange(0, start as int));
        }
        i += 1;
    }
    proof {
        let fin = codewords@;
        let want = old_cw.subrange(0, start as int) + base256_randomized(body, start as int);
        assert forall|k: int| 0 <= k < fin.len() implies fin[k] == want[k] by {
            if k < start {
                assert(fin[k] == fin.subrange(0, start as int)[k]);
            } else {
                assert(fin[start + (k - start)] == fin[k]);
            }
        }
        assert(fin =~= want);
    }
    Ok(())
}

/// What [write_length] writes is read back by Base256 decoding: the field
/// decodes to the data bytes after the placeholder. Where no length field is
/// written, the placeholder must be the 0 that the encoder puts there.
pub proof fn lemma_write_length_round_trip(
    cw: Seq<u8>,
    start: int,
    with_length: bool,
    out: Seq<u8>,
)
    requires
        0 <= start < cw.len(),
        cw.len() - start - 1 <= 1555,
        !with_length ==> cw[start] == 0,
    ensures
        ({
            let written = cw.subrange(0, start) + base256_randomized(
                base256_field(cw, start, with_length),
                start,
            );
            spec_base256(written, start, out) == Ok::<(int, Seq<u8>), DataDecodingError>(
                (written.len() as int, out + cw.subrange(start + 1, cw.len() as int)),
            )
        }),
{
    let n = cw.len() - start - 1;
    let body = base256_field(cw, start, with_length);
    let written = cw.subrange(0, start) + base256_randomized(body, start);
    let data = cw.subrange(start + 1, cw.len() as int);
    assert forall|k: int| 0 <= k < body.len() implies written[start + k] == spec_randomize_255(
        body[k],
        start + k + 1,
    ) by {
        assert(written[start + k] == base256_randomized(body, start)[k]);
    }
    assert forall|k: int| 0 <= k < body.len() implies spec_derandomize_255(
        #[trigger] written[start + k],
        start + k + 1,
    ) == body[k] by {
        lemma_randomize_255_round_trip(body[k], start + k + 1);
    }
    assert(written.len() == start + body.len());
    if !with_length || n <= 249 {
        assert(spec_derandomize_255(written[start + 0], start + 0 + 1) == body[0]);
        assert(body.len() == n + 1);
        assert(body[0] == if with_length { n as u8 } else { 0u8 });
        let decoded = Seq::new(
            n as nat,
            |j: int| spec_derandomize_255(written[start + 1 + j], start + 1 + j + 1),
        );
        assert forall|j: int| 0 <= j < n implies decoded[j] == data[j] by {
            assert(spec_derandomize_255(written[start + (1 + j)], start + (1 + j) + 1) == body[1
                + j]);
        }
        assert(decoded =~= data);
    } else {
        assert(spec_derandomize_255(written[start + 0], start + 0 + 1) == body[0]);
        assert(spec_derandomize_255(written[start + 1], start + 1 + 1) == body[1]);
        assert(body.len() == n + 2);
        assert(body[0] == (n / 250 + 249) as u8);
        assert(body[1] == (n % 250) as u8);
        assert(250 <= n <= 1555 ==> 250 <= n / 250 + 249 <= 255 && 250 * (n / 250) + n % 250 == n)
            by (nonlinear_arith);
        let decoded = Seq::new(
            n as nat,
            |j: int| spec_derandomize_255(written[start + 2 + j], start + 2 + j + 1),
        );
        assert forall|j: int| 0 <= j < n implies decoded[j] == data[j] by {
            assert(spec_derandomize_255(written[start + (2 + j)], start + (2 + j) + 1) == body[2
                + j]);
        }
        assert(decoded =~= data);
    }
}

} // verus!
