//! C40 encodation: values of the C40 sets, packed three to a codeword pair (7.2.5).
use vstd::prelude::*;

use arrayvec::ArrayVec;

use super::buffers::{
    c40_buffer_as_slice, c40_buffer_items, c40_buffer_len, c40_buffer_new, c40_buffer_try_push,
};
use crate::decodation::DataDecodingError;
use crate::decodation::modes::{spec_c40_tuple, spec_c40_value, BASE_C40, SHIFT2, SHIFT3_C40};

verus! {

/// Shift to the Shift 1 set.
pub const SHIFT1: u8 = 0;

/// Shift to the Shift 2 set.
pub const SHIFT2_VALUE: u8 = 1;

/// Shift to the Shift 3 set.
pub const SHIFT3: u8 = 2;

/// Upper Shift (in the Shift 2 set): the next character has 128 added.
pub const UPPER_SHIFT: u8 = 30;

/// The C40 values of a 7-bit character `ch` (7.2.5, table 3): one value in the
/// basic set, or a shift value and a value of a shift set.
pub open spec fn spec_c40_symbols(ch: u8) -> Seq<u8> {
    if ch == 32 {
        seq![3u8]
    } else if 48 <= ch <= 57 {
        seq![(ch - 48 + 4) as u8]
    } else if 65 <= ch <= 90 {
        seq![(ch - 65 + 14) as u8]
    } else if ch <= 31 {
        seq![SHIFT1, ch]
    } else if 33 <= ch <= 47 {
        seq![SHIFT2_VALUE, (ch - 33) as u8]
    } else if 58 <= ch <= 64 {
        seq![SHIFT2_VALUE, (ch - 58 + 15) as u8]
    } else if 91 <= ch <= 95 {
        seq![SHIFT2_VALUE, (ch - 91 + 22) as u8]
    } else {
        seq![SHIFT3, (ch - 96) as u8]
    }
}

/// The C40 values of any byte: from 128 on, Upper Shift and the values of the
/// byte less 128.
pub open spec fn spec_c40_values(ch: u8) -> Seq<u8> {
    if ch < 128 {
        spec_c40_symbols(ch)
    } else {
        seq![SHIFT2_VALUE, UPPER_SHIFT] + spec_c40_symbols((ch - 128) as u8)
    }
}

/// Appends the C40 values of the 7-bit character `ch` to the buffer.
pub fn low_ascii_to_c40_symbols(ctx: &mut ArrayVec<u8, 6>, ch: u8)
    requires
        ch < 128,
        c40_buffer_items(*old(ctx)).len() + spec_c40_symbols(ch).len() <= 6,
    ensures
        c40_buffer_items(*final(ctx)) == c40_buffer_items(*old(ctx)) + spec_c40_symbols(ch),
{
    let ghost before = c40_buffer_items(*ctx);
    if ch == 32 {
        c40_buffer_try_push(ctx, 3);
    } else if 48 <= ch && ch <= 57 {
        c40_buffer_try_push(ctx, ch - 48 + 4);
    } else if 65 <= ch && ch <= 90 {
        c40_buffer_try_push(ctx, ch - 65 + 14);
    } else if ch <= 31 {
        c40_buffer_try_push(ctx, SHIFT1);
        c40_buffer_try_push(ctx, ch);
    } else if 33 <= ch && ch <= 47 {
        c40_buffer_try_push(ctx, SHIFT2_VALUE);
        c40_buffer_try_push(ctx, ch - 33);
    } else if 58 <= ch && ch <= 64 {
        c40_buffer_try_push(ctx, SHIFT2_VALUE);
        c40_buffer_try_push(ctx, ch - 58 + 15);
    } else if 91 <= ch && ch <= 95 {
        c40_buffer_try_push(ctx, SHIFT2_VALUE);
        c40_buffer_try_push(ctx, ch - 91 + 22);
    } else {
        c40_buffer_try_push(ctx, SHIFT3);
        c40_buffer_try_push(ctx, ch - 96);
    }
    proof {
        assert(c40_buffer_items(*ctx) =~= before + spec_c40_symbols(ch));
    }
}

/// Appends the C40 values of the byte `ch` to the buffer and returns how many
/// were written.
pub fn to_vals(buf: &mut ArrayVec<u8, 6>, ch: u8) -> (r: usize)
    requires
        c40_buffer_items(*old(buf)).len() + spec_c40_values(ch).len() <= 6,
    ensures
        c40_buffer_items(*final(buf)) == c40_buffer_items(*old(buf)) + spec_c40_values(ch),
        r == spec_c40_values(ch).len(),
{
    let ghost before = c40_buffer_items(*buf);
    let len_before = c40_buffer_len(buf);
    if ch < 128 {
        low_ascii_to_c40_symbols(buf, ch);
    } else {
        c40_buffer_try_push(buf, SHIFT2_VALUE);
        c40_buffer_try_push(buf, UPPER_SHIFT);
        low_ascii_to_c40_symbols(buf, ch - 128);
    }
    proof {
        assert(c40_buffer_items(*buf) =~= before + spec_c40_values(ch));
    }
    let len_after = c40_buffer_len(buf);
    len_after - len_before
}

/// The C40 values of each byte of `data`, one byte after another.
pub open spec fn spec_c40_values_of(data: Seq<u8>) -> Seq<u8>
    decreases data.len(),
{
    if data.len() == 0 {
        Seq::empty()
    } else {
        spec_c40_values_of(data.drop_last()) + spec_c40_values(data.last())
    }
}

/// The C40 values of all bytes of `data`.
pub fn vals(data: &[u8]) -> (r: Vec<u8>)
    ensures
        r@ == spec_c40_values_of(data@),
{
    let mut out: Vec<u8> = Vec::new();
    let mut i: usize = 0;
    while i < data.len()
        invariant
            i <= data.len(),
            out@ == spec_c40_values_of(data@.subrange(0, i as int)),
        decreases data.len() - i,
    {
        let mut buf = c40_buffer_new();
        let _written = to_vals(&mut buf, data[i]);
        let s = c40_buffer_as_slice(&buf);
        let ghost before = out@;
        let mut j: usize = 0;
        while j < s.len()
            invariant
                j <= s@.len(),
                out@ == before + s@.subrange(0, j as int),
            decreases s@.len() - j,
        {
            out.push(s[j]);
            j += 1;
            proof { assert(out@ =~= before + s@.subrange(0, j as int)); }
        }
        proof {
            let next = data@.subrange(0, i + 1);
            assert(next.drop_last() =~= data@.subrange(0, i as int));
            assert(next.last() == data@[i as int]);
            assert(s@.subrange(0, j as int) =~= s@);
        }
        i += 1;
    }
    proof { assert(data@.subrange(0, data@.len() as int) =~= data@); }
    out
}

/// Feeds C40 values one after another to the decoder's value step.
pub open spec fn spec_c40_feed(
    vals: Seq<u8>,
    shift: u8,
    upper: bool,
    out: Seq<u8>,
) -> Result<(u8, bool, Seq<u8>), DataDecodingError>
    decreases vals.len(),
{
    if vals.len() == 0 {
        Ok((shift, upper, out))
    } else {
        match spec_c40_value(vals[0], shift, upper, out, BASE_C40@, SHIFT3_C40@) {
            Err(e) => Err(e),
            Ok((s, u, o)) => spec_c40_feed(vals.drop_first(), s, u, o),
        }
    }
}

/// The C40 character sets as the decoder holds them.
proof fn lemma_c40_sets()
    ensures
        forall|i: int|
            0 <= i < 37 ==> #[trigger] BASE_C40@[i] == (if i == 0 {
                32
            } else if i <= 10 {
                i + 47
            } else {
                i + 54
            }),
        forall|i: int| 0 <= i < 32 ==> #[trigger] SHIFT3_C40@[i] == 96 + i,
        forall|i: int|
            0 <= i < 27 ==> #[trigger] SHIFT2@[i] == (if i <= 14 {
                33 + i
            } else if i <= 21 {
                i + 43
            } else {
                i + 69
            }),
{
}

/// The C40 values of a byte decode to that byte: fed to the decoder in the
/// basic set without Upper Shift, they output the byte and leave the decoder
/// in the basic set again.
pub proof fn lemma_c40_values_round_trip(ch: u8, out: Seq<u8>)
    ensures
        spec_c40_feed(spec_c40_values(ch), 0, false, out) == Ok::<(u8, bool, Seq<u8>), DataDecodingError>(
            (0u8, false, out.push(ch)),
        ),
{
    reveal(spec_c40_value);
    lemma_c40_sets();
    let vals = spec_c40_values(ch);
    reveal_with_fuel(spec_c40_feed, 5);
    if ch < 128 {
        if vals.len() == 2 {
            assert(vals.drop_first().drop_first() =~= Seq::<u8>::empty());
            assert(vals.drop_first() =~= seq![vals[1]]);
        }
    } else {
        let low = (ch - 128) as u8;
        assert(vals.drop_first() =~= seq![UPPER_SHIFT] + spec_c40_symbols(low));
        assert(vals.drop_first().drop_first() =~= spec_c40_symbols(low));
        if spec_c40_symbols(low).len() == 2 {
            assert(spec_c40_symbols(low).drop_first() =~= seq![spec_c40_symbols(low)[1]]);
            assert(spec_c40_symbols(low).drop_first().drop_first() =~= Seq::<u8>::empty());
        } else {
            assert(spec_c40_symbols(low).drop_first() =~= Seq::<u8>::empty());
        }
    }
}

/// Feeding two runs of values is feeding the first, then the second from the
/// state the first left.
proof fn lemma_c40_feed_append(a: Seq<u8>, b: Seq<u8>, shift: u8, upper: bool, out: Seq<u8>)
    ensures
        spec_c40_feed(a + b, shift, upper, out) == (match spec_c40_feed(a, shift, upper, out) {
            Err(e) => Err(e),
            Ok((s, u, o)) => spec_c40_feed(b, s, u, o),
        }),
    decreases a.len(),
{
    if a.len() == 0 {
        assert(a + b =~= b);
    } else {
        assert((a + b).drop_first() =~= a.drop_first() + b);
        assert((a + b)[0] == a[0]);
        match spec_c40_value(a[0], shift, upper, out, BASE_C40@, SHIFT3_C40@) {
            Err(e) => {},
            Ok((s, u, o)) => {
                lemma_c40_feed_append(a.drop_first(), b, s, u, o);
            },
        }
    }
}

/// The C40 values of a whole byte string decode to that string.
pub proof fn lemma_c40_vals_round_trip(data: Seq<u8>, out: Seq<u8>)
    ensures
        spec_c40_feed(spec_c40_values_of(data), 0, false, out) == Ok::<(u8, bool, Seq<u8>), DataDecodingError>(
            (0u8, false, out + data),
        ),
    decreases data.len(),
{
    if data.len() == 0 {
        assert(out + data =~= out);
    } else {
        let init = data.drop_last();
        lemma_c40_vals_round_trip(init, out);
        lemma_c40_feed_append(spec_c40_values_of(init), spec_c40_values(data.last()), 0, false, out);
        lemma_c40_values_round_trip(data.last(), out + init);
        assert((out + init).push(data.last()) =~= out + data);
    }
}

/// The 16-bit number that stands for the three values `c1 c2 c3`.
pub open spec fn spec_c40_pair_value(c1: u8, c2: u8, c3: u8) -> int {
    1600 * c1 + 40 * c2 + c3 + 1
}

/// Whether `ch` is in the basic set: space, digits and capital letters.
pub open spec fn spec_in_base_set(ch: u8) -> bool {
    ch == 32 || (48 <= ch <= 57) || (65 <= ch <= 90)
}

/// Whether `ch` is in the C40 basic set (a single value).
pub fn in_base_set(ch: u8) -> (r: bool)
    ensures
        r == spec_in_base_set(ch),
{
    ch == 32 || (48 <= ch && ch <= 57) || (65 <= ch && ch <= 90)
}

/// Number of C40 values that `ch` takes: one in the basic set, two in a
/// shift set, two more after an Upper Shift for bytes from 128 on.
pub open spec fn spec_val_size(ch: u8) -> u8 {
    if ch >= 128 {
        (2 + (if spec_in_base_set((ch - 128) as u8) {
            1int
        } else {
            2int
        })) as u8
    } else if spec_in_base_set(ch) {
        1
    } else {
        2
    }
}

/// Number of C40 values that the byte `ch` takes.
pub fn val_size(ch: u8) -> (r: u8)
    ensures
        r == spec_val_size(ch),
        1 <= r <= 4,
    decreases ch,
{
    if in_base_set(ch) {
        1
    } else if ch < 128 {
        2
    } else {
        2 + val_size(ch - 128)
    }
}

/// Encodes three C40 values as two codewords (7.2.5.2): the high and the low
/// byte of `1600 * c1 + 40 * c2 + c3 + 1`.
pub fn write_three_values(codewords: &mut Vec<u8>, c1: u8, c2: u8, c3: u8)
    requires
        spec_c40_pair_value(c1, c2, c3) <= 65535,
    ensures
        final(codewords)@ == old(codewords)@.push(
            (spec_c40_pair_value(c1, c2, c3) / 256) as u8,
        ).push((spec_c40_pair_value(c1, c2, c3) % 256) as u8),
{
    let enc: u16 = 1600 * c1 as u16 + 40 * c2 as u16 + c3 as u16 + 1;
    assert((enc >> 8u16) == enc / 256) by (bit_vector);
    assert((enc & 0xFFu16) == enc % 256) by (bit_vector);
    codewords.push((enc >> 8) as u8);
    codewords.push((enc & 0xFF) as u8);
}

/// The two codewords of three values below 40 decode to those values.
pub proof fn lemma_three_values_round_trip(c1: u8, c2: u8, c3: u8)
    requires
        c1 < 40,
        c2 < 40,
        c3 < 40,
    ensures
        spec_c40_pair_value(c1, c2, c3) <= 64000,
        spec_c40_tuple(
            (spec_c40_pair_value(c1, c2, c3) / 256) as u8,
            (spec_c40_pair_value(c1, c2, c3) % 256) as u8,
        ) == Ok::<(u8, u8, u8), DataDecodingError>((c1, c2, c3)),
{
    reveal(spec_c40_tuple);
    let e = spec_c40_pair_value(c1, c2, c3);
    let a = (e / 256) as u8;
    let b = (e % 256) as u8;
    assert(1 <= e <= 64000);
    assert(a * 256 + b == e);
    let full = e - 1;
    assert(full == 1600 * c1 + (40 * c2 + c3));
    assert(0 <= 40 * c2 + c3 < 1600);
    assert(full / 1600 == c1 && full % 1600 == 40 * c2 + c3) by (nonlinear_arith)
        requires
            full == 1600 * c1 + (40 * c2 + c3),
            0 <= 40 * c2 + c3 < 1600,
            0 <= c1,
    ;
    assert((40 * c2 + c3) / 40 == c2 && (40 * c2 + c3) % 40 == c3) by (nonlinear_arith)
        requires
            0 <= c3 < 40,
            0 <= c2,
    ;
}

} // verus!
