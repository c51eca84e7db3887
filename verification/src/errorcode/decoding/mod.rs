//! Decoding of the Reed-Solomon codes: polynomial evaluation at powers of
//! the generator, root search and small linear systems over GF(256).
use vstd::prelude::*;
use crate::errorcode::galois::{GF, ANTI_LOG, LOG, spec_mul, spec_div};
use crate::errorcode::galois::{lemma_log_of_power, lemma_mul_associative, lemma_mul_one_zero};

pub mod syndrome_based;

pub use syndrome_based::decode;



verus! {

/// Why the correction of errors failed.
///
/// Which variant comes out matters little in practice.
#[derive(Debug, Clone, PartialEq, Eq, Structural)]
pub enum ErrorDecodingError {
    TooManyErrors,
    /// The computed error positions lie outside the codewords.
    ///
    /// This usually means that there are more transmission errors than can be corrected.
    ErrorsOutsideRange,
    Malfunction,
    DataSize { expected: usize, actual: usize },
}

/// XOR of the elements of `s`, i.e. their sum in GF(256), taken from the first one on.
pub open spec fn xor_fold(s: Seq<GF>) -> u8
    decreases s.len(),
{
    if s.len() == 0 {
        0
    } else {
        xor_fold(s.drop_last()) ^ s.last().0
    }
}

/// The terms of the polynomial with coefficients `c` (highest degree first) at
/// the point `x^e`: term `j` is `c[len - 1 - j] * x^(j * e)`.
pub open spec fn poly_terms(c: Seq<GF>, e: int) -> Seq<GF> {
    Seq::new(c.len(), |j: int| GF(spec_mul(c[c.len() - 1 - j].0, ANTI_LOG[(j * e) % 255])))
}

/// Value of the polynomial with coefficients `c` (highest degree first) at `x^e`.
pub open spec fn poly_value(c: Seq<GF>, e: int) -> u8 {
    xor_fold(poly_terms(c, e))
}

/// `x^a * x^b == x^(a + b)`, exponents taken modulo 255.
pub proof fn lemma_power_product(a: int, b: int)
    requires
        0 <= a < 255,
        0 <= b < 255,
    ensures
        spec_mul(ANTI_LOG[a], ANTI_LOG[b]) == ANTI_LOG[(a + b) % 255],
{
    lemma_log_of_power(a);
    lemma_log_of_power(b);
}

/// Multiplying the term of degree `j` at `x^e` by `x^j` gives the term at `x^(e + 1)`.
proof fn lemma_term_step(v: u8, j: int, e: int)
    requires
        0 <= j,
        0 <= e,
    ensures
        spec_mul(spec_mul(v, ANTI_LOG[(j * e) % 255]), ANTI_LOG[j % 255])
            == spec_mul(v, ANTI_LOG[(j * (e + 1)) % 255]),
{
    let a = (j * e) % 255;
    let b = j % 255;
    lemma_mul_associative(v, ANTI_LOG[a], ANTI_LOG[b]);
    lemma_power_product(a, b);
    assert((a + b) % 255 == (j * (e + 1)) % 255) by (nonlinear_arith)
        requires
            a == (j * e) % 255,
            b == j % 255,
            0 <= j,
            0 <= e,
    ;
}

/// XOR of all elements of `v`.
fn xor_sum(v: &Vec<GF>) -> (r: GF)
    ensures
        r.0 == xor_fold(v@),
{
    let mut acc: u8 = 0;
    let mut i: usize = 0;
    while i < v.len()
        invariant
            i <= v.len(),
            acc == xor_fold(v@.subrange(0, i as int)),
        decreases v.len() - i,
    {
        assert(v@.subrange(0, i + 1).drop_last() =~= v@.subrange(0, i as int));
        acc = acc ^ v[i].0;
        i += 1;
    }
    assert(v@.subrange(0, v.len() as int) =~= v@);
    GF(acc)
}

/// The coefficients of `c` in reverse order: the terms of the polynomial at `x^0`.
fn initial_terms(c: &[GF]) -> (r: Vec<GF>)
    ensures
        r@ == poly_terms(c@, 0),
{
    let n = c.len();
    let mut gamma: Vec<GF> = Vec::with_capacity(n);
    let mut i: usize = 0;
    while i < n
        invariant
            n == c@.len(),
            i <= n,
            gamma@.len() == i,
            forall|j: int| 0 <= j < i ==> #[trigger] gamma@[j] == poly_terms(c@, 0)[j],
        decreases n - i,
    {
        proof {
            lemma_mul_one_zero(c@[n - 1 - i].0);
            assert((i * 0) % 255 == 0) by (nonlinear_arith);
        }
        gamma.push(c[n - 1 - i]);
        i += 1;
    }
    assert(gamma@ =~= poly_terms(c@, 0));
    gamma
}

/// Moves the terms from the point `x^e` to the point `x^(e + 1)`.
fn next_terms(gamma: &mut Vec<GF>, powers: &Vec<GF>, Ghost(c): Ghost<Seq<GF>>, Ghost(e): Ghost<int>)
    requires
        0 <= e,
        old(gamma)@ == poly_terms(c, e),
        powers@.len() == c.len(),
        forall|k: int| 0 <= k < powers@.len() ==> #[trigger] powers@[k] == GF(ANTI_LOG[k % 255]),
    ensures
        final(gamma)@ == poly_terms(c, e + 1),
{
    let n = gamma.len();
    let mut j: usize = 0;
    while j < n
        invariant
            0 <= e,
            n == gamma@.len(),
            n == c.len(),
            powers@.len() == c.len(),
            forall|k: int| 0 <= k < powers@.len() ==> #[trigger] powers@[k] == GF(ANTI_LOG[k % 255]),
            j <= n,
            forall|k: int| 0 <= k < j ==> #[trigger] gamma@[k] == poly_terms(c, e + 1)[k],
            forall|k: int| j <= k < n ==> #[trigger] gamma@[k] == poly_terms(c, e)[k],
        decreases n - j,
    {
        proof {
            lemma_term_step(c[n - 1 - j].0, j as int, e);
        }
        let g = gamma[j].mul(powers[j]);
        gamma.set(j, g);
        j += 1;
    }
    assert(gamma@ =~= poly_terms(c, e + 1));
}

/// Evaluates the polynomial with coefficients `c` (highest degree first) at
/// the points `x, x^2, x^3, ...` and writes the values in this order into `out`.
///
/// Returns whether any of the values is non-zero.
pub fn primitive_element_evaluation(c: &[GF], out: &mut Vec<GF>) -> (r: bool)
    ensures
        final(out)@.len() == old(out)@.len(),
        forall|k: int| 0 <= k < final(out)@.len() ==> #[trigger] final(out)@[k] == GF(poly_value(c@, k + 1)),
        r == exists|k: int| 0 <= k < final(out)@.len() && #[trigger] final(out)@[k].0 != 0,
{
    if out.len() == 0 {
        return false;
    }
    let mut gamma = initial_terms(c);
    let powers = GF::primitive_powers(c.len());
    let mut errors = false;
    let mut k: usize = 0;
    while k < out.len()
        invariant
            k <= out@.len(),
            out@.len() == old(out)@.len(),
            gamma@ == poly_terms(c@, k as int),
            powers@.len() == c@.len(),
            forall|i: int| 0 <= i < powers@.len() ==> #[trigger] powers@[i] == GF(ANTI_LOG[i % 255]),
            forall|i: int| 0 <= i < k ==> #[trigger] out@[i] == GF(poly_value(c@, i + 1)),
            errors == exists|i: int| 0 <= i < k && #[trigger] out@[i].0 != 0,
        decreases out@.len() - k,
    {
        next_terms(&mut gamma, &powers, Ghost(c@), Ghost(k as int));
        let o = xor_sum(&gamma);
        let ghost prev = out@;
        let ghost prev_errors = errors;
        out.set(k, o);
        errors = errors || o.0 != 0;
        proof {
            if prev_errors {
                let w = choose|i: int| 0 <= i < k && #[trigger] prev[i].0 != 0;
                assert(out@[w].0 != 0);
            }
            if o.0 != 0 {
                assert(out@[k as int].0 != 0);
            }
            assert forall|i: int| 0 <= i < k + 1 && #[trigger] out@[i].0 != 0 implies errors by {
                if i < k {
                    assert(prev[i].0 != 0);
                }
            }
        }
        k += 1;
    }
    errors
}

/// The roots of the polynomial `c` among `x^0, ..., x^(i-1)`, in this order.
pub open spec fn chien_roots(c: Seq<GF>, i: int) -> Seq<GF>
    decreases i,
{
    if i <= 0 {
        seq![]
    } else {
        chien_roots(c, i - 1) + (if poly_value(c, i - 1) == 0 {
            seq![GF(ANTI_LOG[i - 1])]
        } else {
            seq![]
        })
    }
}

/// The zeros that `chien_search` reports for the coefficients `c` (highest
/// degree first): 0 first when the constant term is 0; then, for a polynomial
/// of degree one, its root; otherwise each power of the generator at which the
/// polynomial vanishes, in increasing order of the exponent.
pub open spec fn spec_chien_search(c: Seq<GF>) -> Seq<GF> {
    if c.len() == 0 {
        seq![]
    } else {
        let z: Seq<GF> = if c.last().0 == 0 { seq![GF(0)] } else { seq![] };
        if c.len() == 2 {
            z + (if c[1].0 != 0 { seq![GF(spec_div(c[1].0, c[0].0))] } else { seq![] })
        } else {
            z + chien_roots(c, 255)
        }
    }
}

/// Finds the zeros of the polynomial whose coefficients are `c` (highest degree first).
pub fn chien_search(c: &[GF]) -> (r: Vec<GF>)
    ensures
        r@ == spec_chien_search(c@),
{
    let mut out: Vec<GF> = Vec::new();
    let n = c.len();
    if n == 0 {
        return out;
    }
    if c[n - 1].0 == 0 {
        out.push(GF(0));
    }
    let ghost z = out@;
    if n == 2 {
        if c[1].0 != 0 {
            out.push(c[1].neg().div(c[0]));
        }
        assert(out@ =~= spec_chien_search(c@));
        return out;
    }
    let mut gamma = initial_terms(c);
    let powers = GF::primitive_powers(n);
    let mut i: usize = 0;
    while i < 255
        invariant
            n == c@.len(),
            i <= 255,
            gamma@ == poly_terms(c@, i as int),
            powers@.len() == c@.len(),
            forall|k: int| 0 <= k < powers@.len() ==> #[trigger] powers@[k] == GF(ANTI_LOG[k % 255]),
            out@ == z + chien_roots(c@, i as int),
        decreases 255 - i,
    {
        let val = xor_sum(&gamma);
        if val.0 == 0 {
            out.push(GF::primitive_power(i as u8));
        }
        assert(out@ =~= z + chien_roots(c@, i + 1));
        next_terms(&mut gamma, &powers, Ghost(c@), Ghost(i as int));
        i += 1;
    }
    out
}

/// Index of the entry in row `i` and column `j` of a matrix stored row by row.
fn cell(i: usize, j: usize, row_stride: usize, n: usize) -> (r: usize)
    requires
        i < n,
        j < n,
        n <= row_stride,
        n * row_stride <= usize::MAX,
    ensures
        r == i * row_stride + j,
        r < n * row_stride,
{
    proof {
        assert(i * row_stride + j < n * row_stride) by (nonlinear_arith)
            requires
                i < n,
                j < n,
                n <= row_stride,
        ;
    }
    i * row_stride + j
}

/// Solves the linear system `mat * x = b` for `x` by LU decomposition with
/// pivoting; `mat` is square with `b.len()` rows, stored row by row with
/// `row_stride` entries per row. The solution replaces `b`.
///
/// Returns true when a solution was found.
pub fn solve(mat: &mut Vec<GF>, b: &mut Vec<GF>, row_stride: usize) -> (r: bool)
    ensures
        final(mat)@.len() == old(mat)@.len(),
        final(b)@.len() == old(b)@.len(),
        r ==> old(b)@.len() > 0 && row_stride >= old(b)@.len()
            && old(mat)@.len() >= old(b)@.len() * row_stride,
{
    let n = b.len();
    if n == 0 || row_stride < n {
        return false;
    }
    let required = match n.checked_mul(row_stride) {
        Some(v) => v,
        None => return false,
    };
    if mat.len() < required {
        return false;
    }
    let mut i: usize = 0;
    while i < n - 1
        invariant
            0 < n <= row_stride,
            mat@.len() == old(mat)@.len(),
            b@.len() == n,
            n == old(b)@.len(),
            n * row_stride == required,
            required <= mat@.len(),
            mat@.len() == old(mat)@.len(),
            b@.len() == n,
            i <= n - 1,
        decreases n - 1 - i,
    {
        // Find a non-zero pivot.
        let mut i_nz: usize = i;
        while i_nz < n && mat[cell(i_nz, i, row_stride, n)].0 == 0
            invariant
                0 < n <= row_stride,
                mat@.len() == old(mat)@.len(),
                b@.len() == n,
                n == old(b)@.len(),
            mat@.len() == old(mat)@.len(),
            b@.len() == n,
            n == old(b)@.len(),
                n * row_stride == required,
                required <= mat@.len(),
                i < n,
                i <= i_nz <= n,
            decreases n - i_nz,
        {
            i_nz += 1;
        }
        if i_nz == n {
            return false;
        }
        // Swap the rows.
        if i_nz != i {
            let t = b[i];
            let u = b[i_nz];
            b.set(i, u);
            b.set(i_nz, t);
            let mut j: usize = 0;
            while j < n
                invariant
                    0 < n <= row_stride,
                    mat@.len() == old(mat)@.len(),
                    b@.len() == n,
                    n == old(b)@.len(),
                mat@.len() == old(mat)@.len(),
                b@.len() == n,
                n == old(b)@.len(),
            mat@.len() == old(mat)@.len(),
            b@.len() == n,
            n == old(b)@.len(),
                    n * row_stride == required,
                    required <= mat@.len(),
                    mat@.len() == old(mat)@.len(),
                    i < n,
                    i_nz < n,
                    j <= n,
                decreases n - j,
            {
                let p = cell(i, j, row_stride, n);
                let q = cell(i_nz, j, row_stride, n);
                let t = mat[p];
                let u = mat[q];
                mat.set(p, u);
                mat.set(q, t);
                j += 1;
            }
        }
        let mut k: usize = i + 1;
        while k < n
            invariant
                0 < n <= row_stride,
                mat@.len() == old(mat)@.len(),
                b@.len() == n,
                n == old(b)@.len(),
            mat@.len() == old(mat)@.len(),
            b@.len() == n,
            n == old(b)@.len(),
                n * row_stride == required,
                required <= mat@.len(),
                mat@.len() == old(mat)@.len(),
                i < n - 1,
                i + 1 <= k <= n,
            decreases n - k,
        {
            // Compute the entry of L.
            let entry = mat[cell(k, i, row_stride, n)];
            let pivot = mat[cell(i, i, row_stride, n)];
            if pivot.0 == 0 {
                return false;
            }
            let factor = entry.div(pivot);
            mat.set(cell(k, i, row_stride, n), factor);
            // Compute the entries of U.
            let mut j: usize = i + 1;
            while j < n
                invariant
                    0 < n <= row_stride,
                    mat@.len() == old(mat)@.len(),
                    b@.len() == n,
                    n == old(b)@.len(),
                mat@.len() == old(mat)@.len(),
                b@.len() == n,
                n == old(b)@.len(),
            mat@.len() == old(mat)@.len(),
            b@.len() == n,
            n == old(b)@.len(),
                    n * row_stride == required,
                    required <= mat@.len(),
                    mat@.len() == old(mat)@.len(),
                    i < n - 1,
                    k < n,
                    j <= n,
                decreases n - j,
            {
                let current = mat[cell(k, j, row_stride, n)];
                let upper = mat[cell(i, j, row_stride, n)];
                mat.set(cell(k, j, row_stride, n), current.sub(factor.mul(upper)));
                j += 1;
            }
            k += 1;
        }
        i += 1;
    }
    let last = n - 1;
    if mat[cell(last, last, row_stride, n)].0 == 0 {
        return false;
    }
    // Solve L y = b.
    let mut i: usize = 0;
    while i < n
        invariant
            0 < n <= row_stride,
            mat@.len() == old(mat)@.len(),
            b@.len() == n,
            n == old(b)@.len(),
            n * row_stride == required,
            required <= mat@.len(),
            b@.len() == n,
            i <= n,
        decreases n - i,
    {
        let mut j: usize = 0;
        while j < i
            invariant
                0 < n <= row_stride,
                mat@.len() == old(mat)@.len(),
                b@.len() == n,
                n == old(b)@.len(),
            mat@.len() == old(mat)@.len(),
            b@.len() == n,
            n == old(b)@.len(),
                n * row_stride == required,
                required <= mat@.len(),
                b@.len() == n,
                i < n,
                j <= i,
            decreases i - j,
        {
            let coefficient = mat[cell(i, j, row_stride, n)];
            let updated = b[i].sub(coefficient.mul(b[j]));
            b.set(i, updated);
            j += 1;
        }
        i += 1;
    }
    // Solve U x = y.
    let mut i: usize = n;
    while i > 0
        invariant
            0 < n <= row_stride,
            mat@.len() == old(mat)@.len(),
            b@.len() == n,
            n == old(b)@.len(),
            n * row_stride == required,
            required <= mat@.len(),
            b@.len() == n,
            i <= n,
        decreases i,
    {
        i -= 1;
        let mut j: usize = i + 1;
        while j < n
            invariant
                0 < n <= row_stride,
                mat@.len() == old(mat)@.len(),
                b@.len() == n,
                n == old(b)@.len(),
            mat@.len() == old(mat)@.len(),
            b@.len() == n,
            n == old(b)@.len(),
                n * row_stride == required,
                required <= mat@.len(),
                b@.len() == n,
                i < n,
                j <= n,
            decreases n - j,
        {
            let coefficient = mat[cell(i, j, row_stride, n)];
            let updated = b[i].sub(coefficient.mul(b[j]));
            b.set(i, updated);
            j += 1;
        }
        let pivot = mat[cell(i, i, row_stride, n)];
        if pivot.0 == 0 {
            return false;
        }
        let updated = b[i].div(pivot);
        b.set(i, updated);
    }
    true
}

} // verus!
