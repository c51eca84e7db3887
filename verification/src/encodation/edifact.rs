//! EDIFACT encodation: four 6-bit values packed into three codewords (7.2.7).
use vstd::prelude::*;

use arrayvec::ArrayVec;

use super::DataEncodingError;
use super::buffers::{edifact_group_as_slice, edifact_group_items};
use crate::decodation::modes::{spec_edifact_char, spec_edifact_value};

verus! {

/// Whether `ch` can be written in EDIFACT: the bytes 32..=94.
pub open spec fn spec_is_encodable(ch: u8) -> bool {
    32 <= ch <= 94
}

/// Whether `ch` can be written in EDIFACT.
pub fn is_encodable(ch: u8) -> (r: bool)
    ensures
        r == spec_is_encodable(ch),
{
    32 <= ch && ch <= 94
}

/// The 6-bit value at `k` of the group, 0 past its end.
pub open spec fn group_value(s: Seq<u8>, k: int) -> int {
    if k < s.len() {
        (s[k] % 64) as int
    } else {
        0
    }
}

/// The codewords of a group of 1 to 4 values: the values' 6-bit patterns one
/// after another, cut into bytes; one codeword for one value, two for two and
/// three for three or four.
pub open spec fn spec_edifact_codewords(s: Seq<u8>) -> Seq<u8> {
    let b0 = (group_value(s, 0) * 4 + group_value(s, 1) / 16) as u8;
    let b1 = ((group_value(s, 1) % 16) * 16 + group_value(s, 2) / 4) as u8;
    let b2 = ((group_value(s, 2) % 4) * 64 + group_value(s, 3)) as u8;
    if s.len() <= 1 {
        seq![b0]
    } else if s.len() == 2 {
        seq![b0, b1]
    } else {
        seq![b0, b1, b2]
    }
}

/// Encodes a group of 1 to 4 EDIFACT values and appends its codewords.
///
/// # Errors
///
/// Fails with [DataEncodingError::InternalError] on an empty group, and
/// writes nothing then.
pub fn write4(codewords: &mut Vec<u8>, s: &ArrayVec<u8, 4>) -> (r: Result<(), DataEncodingError>)
    ensures
        edifact_group_items(*s).len() == 0 ==> (r matches Err(DataEncodingError::InternalError(_)))
            && final(codewords)@ == old(codewords)@,
        edifact_group_items(*s).len() > 0 ==> r is Ok && final(codewords)@ == old(codewords)@
            + spec_edifact_codewords(edifact_group_items(*s)),
{
    let s = edifact_group_as_slice(s);
    let ghost g = s@;
    if s.len() == 0 {
        return Err(DataEncodingError::InternalError("EDIFACT grubu boşken codeword yazılmak istendi"));
    }
    let first = s[0];
    let s1: u8 = if s.len() > 1 { s[1] & 0b11_1111 } else { 0 };
    let s2: u8 = if s.len() > 2 { s[2] & 0b11_1111 } else { 0 };
    let s3: u8 = if s.len() > 3 { s[3] & 0b11_1111 } else { 0 };
    proof {
        assert(forall|x: u8| #![trigger x & 63u8] (x & 63u8) == x % 64) by (bit_vector);
        assert(group_value(g, 1) == s1);
        assert(group_value(g, 2) == s2);
        assert(group_value(g, 3) == s3);
        assert(s1 < 64 && s2 < 64 && s3 < 64);
    }
    let b0: u8 = (first << 2u8) | (s1 >> 4u8);
    let b1: u8 = (s1 << 4u8) | (s2 >> 2u8);
    let b2: u8 = (s2 << 6u8) | s3;
    proof {
        assert(s1 < 64 ==> ((first << 2u8) | (s1 >> 4u8)) == (first % 64) * 4 + s1 / 16)
            by (bit_vector);
        assert(s1 < 64 && s2 < 64 ==> ((s1 << 4u8) | (s2 >> 2u8)) == (s1 % 16) * 16 + s2 / 4)
            by (bit_vector);
        assert(s2 < 64 && s3 < 64 ==> ((s2 << 6u8) | s3) == (s2 % 4) * 64 + s3) by (bit_vector);
    }
    codewords.push(b0);
    if s.len() >= 2 {
        codewords.push(b1);
        if s.len() >= 3 {
            codewords.push(b2);
        }
    }
    proof {
        let want = spec_edifact_codewords(g);
        assert(codewords@ =~= old(codewords)@ + want);
    }
    Ok(())
}

/// A full group of four values is read back by the decoder: the `k`-th value
/// of the three codewords is the `k`-th value of the group, and an EDIFACT
/// character comes back as itself.
pub proof fn lemma_write4_round_trip(s: Seq<u8>)
    requires
        s.len() == 4,
    ensures
        ({
            let c = spec_edifact_codewords(s);
            forall|k: int|
                0 <= k < 4 ==> #[trigger] spec_edifact_value(c[0], c[1], c[2], k) == s[k] % 64
        }),
        forall|k: int|
            0 <= k < 4 && spec_is_encodable(#[trigger] s[k]) ==> s[k] % 64 != 31
                && spec_edifact_char((s[k] % 64) as int) == s[k],
{
    reveal(spec_edifact_value);
    let c = spec_edifact_codewords(s);
    let v0 = (s[0] % 64) as u8;
    let v1 = (s[1] % 64) as u8;
    let v2 = (s[2] % 64) as u8;
    let v3 = (s[3] % 64) as u8;
    assert(c[0] == (v0 * 4 + v1 / 16) as u8);
    assert(c[1] == ((v1 % 16) * 16 + v2 / 4) as u8);
    assert(c[2] == ((v2 % 4) * 64 + v3) as u8);
    let b0 = c[0];
    let b1 = c[1];
    let b2 = c[2];
    assert(v0 < 64 && v1 < 64 && v2 < 64 && v3 < 64 && b0 == v0 * 4 + v1 / 16 && b1 == (v1 % 16)
        * 16 + v2 / 4 && b2 == (v2 % 4) * 64 + v3 ==> {
        let n = b0 * 65536 + b1 * 256 + b2;
        &&& n / 262144 == v0
        &&& (n / 4096) % 64 == v1
        &&& (n / 64) % 64 == v2
        &&& n % 64 == v3
    }) by (nonlinear_arith);
}

} // verus!
