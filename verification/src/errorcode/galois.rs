//! Arithmetic in GF(256), the field of the Data Matrix Reed-Solomon codes.
//!
//! An element is a byte; its bits are the coefficients of a polynomial of
//! degree at most 7 (bit 0 is the constant term). Addition is the coefficient-wise
//! sum, i.e. XOR. Multiplication is polynomial multiplication modulo the
//! polynomial 301 (`x^8 + x^5 + x^3 + x^2 + 1`). With that choice `x` generates
//! the multiplicative group: the powers `x^0, ..., x^254` are exactly the 255
//! non-zero elements. Multiplication and division then reduce to adding and
//! subtracting exponents, with the two tables below.
use vstd::prelude::*;

verus! {

/// `ANTI_LOG[i]` is `x^i`, for `i` in `0..255`.
pub const ANTI_LOG: [u8; 255] = [1, 2, 4, 8, 16, 32, 64, 128, 45, 90, 180, 69, 138, 57, 114, 228, 229, 231, 227, 235, 251, 219, 155, 27, 54, 108, 216, 157, 23, 46, 92, 184, 93, 186, 89, 178, 73, 146, 9, 18, 36, 72, 144, 13, 26, 52, 104, 208, 141, 55, 110, 220, 149, 7, 14, 28, 56, 112, 224, 237, 247, 195, 171, 123, 246, 193, 175, 115, 230, 225, 239, 243, 203, 187, 91, 182, 65, 130, 41, 82, 164, 101, 202, 185, 95, 190, 81, 162, 105, 210, 137, 63, 126, 252, 213, 135, 35, 70, 140, 53, 106, 212, 133, 39, 78, 156, 21, 42, 84, 168, 125, 250, 217, 159, 19, 38, 76, 152, 29, 58, 116, 232, 253, 215, 131, 43, 86, 172, 117, 234, 249, 223, 147, 11, 22, 44, 88, 176, 77, 154, 25, 50, 100, 200, 189, 87, 174, 113, 226, 233, 255, 211, 139, 59, 118, 236, 245, 199, 163, 107, 214, 129, 47, 94, 188, 85, 170, 121, 242, 201, 191, 83, 166, 97, 194, 169, 127, 254, 209, 143, 51, 102, 204, 181, 71, 142, 49, 98, 196, 165, 103, 206, 177, 79, 158, 17, 34, 68, 136, 61, 122, 244, 197, 167, 99, 198, 161, 111, 222, 145, 15, 30, 60, 120, 240, 205, 183, 67, 134, 33, 66, 132, 37, 74, 148, 5, 10, 20, 40, 80, 160, 109, 218, 153, 31, 62, 124, 248, 221, 151, 3, 6, 12, 24, 48, 96, 192, 173, 119, 238, 241, 207, 179, 75, 150];

/// `LOG[v]` is the exponent `i` with `x^i == v`, for non-zero `v`; `LOG[0]` is unused (0).
pub const LOG: [u8; 256] = [0, 0, 1, 240, 2, 225, 241, 53, 3, 38, 226, 133, 242, 43, 54, 210, 4, 195, 39, 114, 227, 106, 134, 28, 243, 140, 44, 23, 55, 118, 211, 234, 5, 219, 196, 96, 40, 222, 115, 103, 228, 78, 107, 125, 135, 8, 29, 162, 244, 186, 141, 180, 45, 99, 24, 49, 56, 13, 119, 153, 212, 199, 235, 91, 6, 76, 220, 217, 197, 11, 97, 184, 41, 36, 223, 253, 116, 138, 104, 193, 229, 86, 79, 171, 108, 165, 126, 145, 136, 34, 9, 74, 30, 32, 163, 84, 245, 173, 187, 204, 142, 81, 181, 190, 46, 88, 100, 159, 25, 231, 50, 207, 57, 147, 14, 67, 120, 128, 154, 248, 213, 167, 200, 63, 236, 110, 92, 176, 7, 161, 77, 124, 221, 102, 218, 95, 198, 90, 12, 152, 98, 48, 185, 179, 42, 209, 37, 132, 224, 52, 254, 239, 117, 233, 139, 22, 105, 27, 194, 113, 230, 206, 87, 158, 80, 189, 172, 203, 109, 175, 166, 62, 127, 247, 146, 66, 137, 192, 35, 252, 10, 183, 75, 216, 31, 83, 33, 73, 164, 144, 85, 170, 246, 65, 174, 61, 188, 202, 205, 157, 143, 169, 82, 72, 182, 215, 191, 251, 47, 178, 89, 151, 101, 94, 160, 123, 26, 112, 232, 21, 51, 238, 208, 131, 58, 69, 148, 18, 15, 16, 68, 17, 121, 149, 129, 19, 155, 59, 249, 70, 214, 250, 168, 71, 201, 156, 64, 60, 237, 130, 111, 20, 93, 122, 177, 150];

/// The two tables are inverse bijections between `0..255` and the non-zero bytes.
pub proof fn lemma_tables_inverse()
    ensures
        forall|i: int| 0 <= i < 255 ==> #[trigger] LOG[ANTI_LOG[i] as int] == i,
        forall|i: int| 0 <= i < 255 ==> #[trigger] ANTI_LOG[i] != 0,
        forall|v: int| 1 <= v < 256 ==> #[trigger] ANTI_LOG[LOG[v] as int] == v,
        forall|v: int| 0 <= v < 256 ==> #[trigger] LOG[v] < 255,
{
}

/// `x^i` is non-zero and its exponent is `i`.
pub proof fn lemma_log_of_power(i: int)
    requires
        0 <= i < 255,
    ensures
        LOG[ANTI_LOG[i] as int] == i,
        ANTI_LOG[i] != 0,
{
    lemma_tables_inverse();
}

/// A non-zero byte is the power of the generator given by its exponent.
pub proof fn lemma_power_of_log(v: int)
    requires
        1 <= v < 256,
    ensures
        ANTI_LOG[LOG[v] as int] == v,
        LOG[v] < 255,
{
    lemma_tables_inverse();
}

/// Every exponent in the table is below 255.
pub proof fn lemma_log_bound(v: int)
    requires
        0 <= v < 256,
    ensures
        LOG[v] < 255,
{
    lemma_tables_inverse();
}

/// An element of GF(256).
#[derive(Debug, Clone, Copy, PartialEq, Eq, Structural)]
pub struct GF(pub u8);

/// Product of two field elements, by their exponents.
pub open spec fn spec_mul(a: u8, b: u8) -> u8 {
    if a == 0 || b == 0 {
        0
    } else {
        ANTI_LOG[(LOG[a as int] + LOG[b as int]) % 255]
    }
}

/// Quotient of two field elements, by their exponents; 0 when either is 0.
pub open spec fn spec_div(a: u8, b: u8) -> u8 {
    if a == 0 || b == 0 {
        0
    } else {
        ANTI_LOG[(LOG[a as int] - LOG[b as int] + 255) % 255]
    }
}

impl GF {
    /// The first `count` powers `x^0, x^1, x^2, ...` of the generator (cyclic with period 255).
    pub fn primitive_powers(count: usize) -> (r: Vec<GF>)
        ensures
            r@.len() == count,
            forall|k: int| 0 <= k < count ==> #[trigger] r@[k] == GF(ANTI_LOG[k % 255]),
    {
        let mut out: Vec<GF> = Vec::with_capacity(count);
        let mut i: usize = 0;
        let mut e: usize = 0;
        while i < count
            invariant
                i <= count,
                e == i % 255,
                out@.len() == i,
                forall|k: int| 0 <= k < i ==> #[trigger] out@[k] == GF(ANTI_LOG[k % 255]),
            decreases count - i,
        {
            out.push(GF(ANTI_LOG[e]));
            i += 1;
            e = if e == 254 { 0 } else { e + 1 };
        }
        out
    }

    /// The power `x^i` of the generator; the powers repeat with period 255,
    /// so `x^255 == x^0 == 1`.
    pub fn primitive_power(i: u8) -> (r: GF)
        ensures
            r == GF(ANTI_LOG[i as int % 255]),
            i < 255 ==> r == GF(ANTI_LOG[i as int]),
    {
        GF(ANTI_LOG[(i % 255) as usize])
    }

    /// The exponent `i` with `x^i == self` (0 for the element 0).
    pub fn log(self) -> (r: usize)
        ensures
            r == LOG[self.0 as int],
            r < 255,
    {
        proof { lemma_log_bound(self.0 as int); }
        LOG[self.0 as usize] as usize
    }

    /// Sum of two elements (XOR of the coefficients).
    pub fn add(self, rhs: GF) -> (r: GF)
        ensures
            r == GF(self.0 ^ rhs.0),
    {
        GF(self.0 ^ rhs.0)
    }

    /// Difference of two elements, which in characteristic 2 is the sum.
    pub fn sub(self, rhs: GF) -> (r: GF)
        ensures
            r == GF(self.0 ^ rhs.0),
    {
        self.add(rhs)
    }

    /// Additive inverse; every element is its own inverse.
    pub fn neg(self) -> (r: GF)
        ensures
            r == self,
    {
        GF(self.0)
    }

    /// Product of two elements.
    pub fn mul(self, rhs: GF) -> (r: GF)
        ensures
            r == GF(spec_mul(self.0, rhs.0)),
    {
        if self.0 == 0 || rhs.0 == 0 {
            return GF(0);
        }
        proof {
            lemma_log_bound(self.0 as int);
            lemma_log_bound(rhs.0 as int);
        }
        let ia: u16 = LOG[self.0 as usize] as u16;
        let ib: u16 = LOG[rhs.0 as usize] as u16;
        let i: u16 = (ia + ib) % 255;
        GF(ANTI_LOG[i as usize])
    }

    /// The element added `rhs` times to itself: 0 for even `rhs`, `self` for odd `rhs`.
    pub fn mul_usize(self, rhs: usize) -> (r: GF)
        ensures
            r == (if rhs % 2 == 0 { GF(0) } else { self }),
    {
        GF(self.0 * (rhs % 2) as u8)
    }

    /// Quotient of two elements; 0 when either is 0.
    pub fn div(self, rhs: GF) -> (r: GF)
        ensures
            r == GF(spec_div(self.0, rhs.0)),
    {
        if self.0 == 0 || rhs.0 == 0 {
            return GF(0);
        }
        proof {
            lemma_log_bound(self.0 as int);
            lemma_log_bound(rhs.0 as int);
        }
        let ia: i16 = LOG[self.0 as usize] as i16;
        let ib: i16 = LOG[rhs.0 as usize] as i16;
        let mut i: i16 = ia - ib;
        if i < 0 {
            i += 255;
        }
        let idx: usize = i as usize;
        assert(idx == (LOG[self.0 as int] - LOG[rhs.0 as int] + 255) % 255);
        GF(ANTI_LOG[idx])
    }

    /// The byte of the element.
    pub fn to_u8(self) -> (r: u8)
        ensures
            r == self.0,
    {
        self.0
    }

    /// The element of a byte.
    pub fn from_u8(i: u8) -> (r: GF)
        ensures
            r == GF(i),
    {
        GF(i)
    }
}

/// Dividing by a non-zero element and multiplying by it again gives the element back.
pub proof fn lemma_div_mul(a: u8, b: u8)
    requires
        b != 0,
    ensures
        spec_mul(spec_div(a, b), b) == a,
{
    if a != 0 {
        lemma_power_of_log(a as int);
        lemma_power_of_log(b as int);
        let k = (LOG[a as int] - LOG[b as int] + 255) % 255;
        lemma_log_of_power(k);
        assert((k + LOG[b as int]) % 255 == LOG[a as int]);
    }
}

/// The inverse of a non-zero element is non-zero, and distinct non-zero
/// elements have distinct inverses.
#[verifier::spinoff_prover]
#[verifier::rlimit(50)]
pub proof fn lemma_inverse_injective(a: u8, b: u8)
    requires
        a != 0,
        b != 0,
    ensures
        spec_div(1, a) != 0,
        a != b ==> spec_div(1, a) != spec_div(1, b),
{
    lemma_power_of_log(a as int);
    lemma_power_of_log(b as int);
    assert(LOG[1] == 0);
    let la = LOG[a as int] as int;
    let lb = LOG[b as int] as int;
    let ka = (0 - la + 255) % 255;
    let kb = (0 - lb + 255) % 255;
    assert(spec_div(1, a) == ANTI_LOG[ka]);
    assert(spec_div(1, b) == ANTI_LOG[kb]);
    lemma_log_of_power(ka);
    lemma_log_of_power(kb);
    if a != b && spec_div(1, a) == spec_div(1, b) {
        assert(ka == kb);
        assert(la == lb);
    }
}

/// Multiplication is commutative.
pub proof fn lemma_mul_commutative(a: u8, b: u8)
    ensures
        spec_mul(a, b) == spec_mul(b, a),
{
}

/// 1 is the neutral element and 0 absorbs.
pub proof fn lemma_mul_one_zero(a: u8)
    ensures
        spec_mul(a, 1) == a,
        spec_mul(a, 0) == 0,
{
    if a != 0 {
        lemma_power_of_log(a as int);
        assert(LOG[1] == 0);
        assert((LOG[a as int] + LOG[1]) % 255 == LOG[a as int]);
    }
}

/// Multiplication is associative.
pub proof fn lemma_mul_associative(a: u8, b: u8, c: u8)
    ensures
        spec_mul(spec_mul(a, b), c) == spec_mul(a, spec_mul(b, c)),
{
    if a != 0 && b != 0 && c != 0 {
        lemma_power_of_log(a as int);
        lemma_power_of_log(b as int);
        lemma_power_of_log(c as int);
        lemma_log_of_power((LOG[a as int] + LOG[b as int]) % 255);
        lemma_log_of_power((LOG[b as int] + LOG[c as int]) % 255);
        let la = LOG[a as int] as int;
        let lb = LOG[b as int] as int;
        let lc = LOG[c as int] as int;
        assert(((la + lb) % 255 + lc) % 255 == (la + (lb + lc) % 255) % 255) by (nonlinear_arith)
            requires 0 <= la < 255, 0 <= lb < 255, 0 <= lc < 255;
    }
}

/// Every element is its own additive inverse: `a + (-a) == 0`.
pub proof fn lemma_add_neg(a: u8)
    ensures
        a ^ a == 0,
{
    assert(a ^ a == 0) by (bit_vector);
}

/// Multiplying the generator power `x^i` by `x` gives `x^(i+1)` (indices modulo 255).
pub proof fn lemma_power_step(i: int)
    requires
        0 <= i < 255,
    ensures
        spec_mul(ANTI_LOG[i], 2) == ANTI_LOG[(i + 1) % 255],
{
    lemma_log_of_power(i);
    assert(LOG[2] == 1);
}

} // verus!
