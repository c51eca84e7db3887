//! Peterson-Gorenstein-Zierler decoding of the Reed-Solomon codes, with a
//! choice of algorithms for the error locator polynomial and the error values.
use vstd::prelude::*;
use crate::errorcode::galois::{GF, spec_div, spec_mul, lemma_inverse_injective};
use super::{ErrorDecodingError, solve, chien_search, primitive_element_evaluation, poly_value};
use crate::symbol_size::SymbolSize;

verus! {

/// The positions `start, start + stride, start + 2 * stride, ...` below `limit`.
pub open spec fn stride_positions(start: int, limit: int, stride: int) -> Seq<int>
    decreases (if start < limit { limit - start } else { 0 }),
{
    if stride <= 0 || start >= limit {
        seq![]
    } else {
        seq![start] + stride_positions(start + stride, limit, stride)
    }
}

/// The positions, in codewords of length `len` whose first `num_data` are the
/// data codewords, of the codewords of the interleaved block `block` out of
/// `stride` blocks: its data codewords, then its error correction codewords.
///
/// Data and error correction codewords are interleaved separately, so the
/// error correction codewords of a block start at `num_data + block`.
pub open spec fn block_positions(len: int, num_data: int, block: int, stride: int) -> Seq<int> {
    stride_positions(block, num_data, stride) + stride_positions(num_data + block, len, stride)
}

/// The codewords of one interleaved block, in the order of the block.
pub open spec fn block_received(cw: Seq<u8>, num_data: int, block: int, stride: int) -> Seq<GF> {
    block_positions(cw.len() as int, num_data, block, stride).map_values(|p: int| GF(cw[p]))
}

/// Whether all `err_len` syndromes of a block vanish, i.e. the block is a
/// codeword of the Reed-Solomon code with `err_len` error correction codewords.
pub open spec fn block_is_clean(cw: Seq<u8>, num_data: int, block: int, stride: int, err_len: int) -> bool {
    forall|j: int| 0 <= j < err_len ==> #[trigger] poly_value(block_received(cw, num_data, block, stride), j + 1) == 0
}

/// Whether position `p` belongs to the interleaved block `block` out of `stride`.
pub open spec fn in_block(p: int, num_data: int, block: int, stride: int) -> bool {
    ||| (block <= p < num_data && (p - block) % stride == 0)
    ||| (num_data + block <= p && (p - num_data - block) % stride == 0)
}

/// Whether every interleaved block of the codewords of a symbol of `size` is clean.
pub open spec fn symbol_is_clean(cw: Seq<u8>, size: SymbolSize) -> bool {
    let setup = size.spec_setup();
    forall|b: int| 0 <= b < setup.num_ecc_blocks ==> #[trigger] block_is_clean(cw,
        size.spec_num_data_codewords(), b, setup.num_ecc_blocks as int, setup.num_ecc_per_block as int)
}

/// From `base + block`, a block has `m` positions below `base + stride * m`.
proof fn lemma_positions_count(base: int, block: int, stride: int, m: int)
    requires
        0 <= block < stride,
        0 <= m,
    ensures
        stride_positions(base + block, base + stride * m, stride).len() == m,
    decreases m,
{
    if m > 0 {
        assert(stride * m == stride + stride * (m - 1)) by (nonlinear_arith);
        assert(stride * (m - 1) >= 0) by (nonlinear_arith)
            requires stride > 0, m >= 1;
        let start = base + block;
        let limit = base + stride * m;
        let next = (base + stride) + block;
        lemma_positions_count(base + stride, block, stride, m - 1);
        assert(next == start + stride);
        assert(limit == (base + stride) + stride * (m - 1));
        assert(start < limit);
        assert(stride_positions(start, limit, stride) == seq![start] + stride_positions(start + stride, limit, stride));
        assert(stride_positions(start + stride, limit, stride).len() == m - 1);
    } else {
        assert(stride * m == 0) by (nonlinear_arith)
            requires m == 0;
    }
}

/// Every position lies in `[start, limit)` and is `start` plus a multiple of `stride`.
proof fn lemma_positions_range(start: int, limit: int, stride: int)
    requires
        stride > 0,
    ensures
        forall|k: int| 0 <= k < stride_positions(start, limit, stride).len() ==>
            start <= #[trigger] stride_positions(start, limit, stride)[k] < limit,
    decreases (if start < limit { limit - start } else { 0 }),
{
    if start < limit {
        lemma_positions_range(start + stride, limit, stride);
        let rest = stride_positions(start + stride, limit, stride);
        assert forall|k: int| 0 <= k < stride_positions(start, limit, stride).len() implies
            start <= #[trigger] stride_positions(start, limit, stride)[k] < limit by {
            if k > 0 {
                assert(stride_positions(start, limit, stride)[k] == rest[k - 1]);
            }
        }
    }
}

/// Appends the codewords at `start, start + stride, ...` below `limit`.
fn gather(cw: &Vec<u8>, start: usize, limit: usize, stride: usize, out: &mut Vec<GF>)
    requires
        stride > 0,
        limit <= cw@.len(),
        cw@.len() + stride <= usize::MAX,
    ensures
        final(out)@ == old(out)@ + stride_positions(start as int, limit as int, stride as int).map_values(
            |p: int| GF(cw@[p]),
        ),
{
    let mut p: usize = start;
    while p < limit
        invariant
            stride > 0,
            limit <= cw@.len(),
            cw@.len() + stride <= usize::MAX,
            out@ + stride_positions(p as int, limit as int, stride as int).map_values(|q: int| GF(cw@[q]))
                == old(out)@ + stride_positions(start as int, limit as int, stride as int).map_values(
                |q: int| GF(cw@[q]),
            ),
        decreases (if p < limit { limit - p } else { 0 }),
    {
        let ghost before = out@;
        let ghost rest = stride_positions(p + stride, limit as int, stride as int);
        out.push(GF(cw[p]));
        proof {
            assert(stride_positions(p as int, limit as int, stride as int) == seq![p as int] + rest);
            assert(out@ + rest.map_values(|q: int| GF(cw@[q])) =~= before + (seq![p as int] + rest).map_values(
                |q: int| GF(cw@[q]),
            ));
        }
        p = p + stride;
    }
    assert(stride_positions(p as int, limit as int, stride as int).map_values(|q: int| GF(cw@[q])) =~= seq![]);
    assert(out@ =~= out@ + Seq::<GF>::empty());
}

/// The algorithm that finds the error locator polynomial.
#[derive(Debug, Clone, Copy, PartialEq, Eq, Structural)]
pub enum ErrorLocator {
    /// The Levinson-Durbin recursion on the Hankel matrix of the syndromes.
    LevinsonDurbin,
    /// The Berlekamp-Massey algorithm.
    BerlekampMassey,
    /// LU decomposition of the syndrome matrix for decreasing numbers of errors.
    LuDecomposition,
}

/// The algorithm that finds the error values.
#[derive(Debug, Clone, Copy, PartialEq, Eq, Structural)]
pub enum ErrorEvaluator {
    /// The Björck-Pereyra solution of the Vandermonde system.
    BjorckPereyra,
    /// The Forney algorithm.
    Forney,
}

/// Decodes the Reed-Solomon code with a syndrome based decoder.
///
/// `codewords` are the codewords of a symbol of `size`; the errors are
/// corrected in place.
///
/// In big symbols the codewords of several Reed-Solomon blocks are
/// interleaved; the decoder corrects each block in turn.
pub fn decode(codewords: &mut Vec<u8>, size: SymbolSize) -> (r: Result<(), ErrorDecodingError>)
    ensures
        final(codewords)@.len() == old(codewords)@.len(),
        old(codewords)@.len() != size.spec_num_codewords() ==> r == Err::<(), ErrorDecodingError>(
            ErrorDecodingError::DataSize {
                expected: size.spec_num_codewords() as usize,
                actual: old(codewords)@.len() as usize,
            },
        ) && final(codewords)@ == old(codewords)@,
        old(codewords)@.len() == size.spec_num_codewords() && symbol_is_clean(old(codewords)@, size)
            ==> r is Ok && final(codewords)@ == old(codewords)@,
{
    proof { size.lemma_table_consistent(); }
    let setup = size.block_setup();
    let err_len = setup.num_ecc_per_block;
    let stride = setup.num_ecc_blocks;
    let num_data = size.num_data_codewords();
    let expected = size.num_codewords();
    if codewords.len() != expected {
        return Err(ErrorDecodingError::DataSize { expected, actual: codewords.len() });
    }
    assert(stride * err_len == err_len * stride) by (nonlinear_arith);
    let mut block: usize = 0;
    while block < stride
        invariant
            setup == size.spec_setup(),
            err_len == setup.num_ecc_per_block,
            stride == setup.num_ecc_blocks,
            num_data == size.spec_num_data_codewords(),
            1 <= stride <= 10,
            5 <= err_len <= 68,
            stride <= num_data,
            num_data + stride * err_len == size.spec_num_codewords(),
            stride * err_len == err_len * stride,
            codewords@.len() == size.spec_num_codewords(),
            old(codewords)@.len() == size.spec_num_codewords(),
            size.spec_num_codewords() <= 2178,
            block <= stride,
            symbol_is_clean(old(codewords)@, size) ==> codewords@ == old(codewords)@,
        decreases stride - block,
    {
        proof {
            lemma_positions_count(num_data as int, block as int, stride as int, err_len as int);
            assert(block_is_clean(old(codewords)@, num_data as int, block as int, stride as int, err_len as int)
                <== symbol_is_clean(old(codewords)@, size));
        }
        decode_gen(codewords, num_data, block, stride, err_len, ErrorLocator::LevinsonDurbin, ErrorEvaluator::BjorckPereyra)?;
        block += 1;
    }
    Ok(())
}

/// Corrects the errors of one interleaved block with the chosen algorithms.
///
/// The block consists of the codewords `block, block + stride, ...` below
/// `num_data` and `num_data + block, num_data + block + stride, ...`; its last
/// `err_len` codewords are the error correction codewords.
fn decode_gen(
    codewords: &mut Vec<u8>,
    num_data: usize,
    block: usize,
    stride: usize,
    err_len: usize,
    locator: ErrorLocator,
    evaluator: ErrorEvaluator,
) -> (r: Result<(), ErrorDecodingError>)
    requires
        0 < stride,
        0 < err_len,
        block <= num_data,
        num_data + block <= old(codewords)@.len(),
        old(codewords)@.len() + stride <= usize::MAX,
        block_positions(old(codewords)@.len() as int, num_data as int, block as int, stride as int).len() > err_len,
    ensures
        final(codewords)@.len() == old(codewords)@.len(),
        forall|p: int| 0 <= p < old(codewords)@.len() && !in_block(p, num_data as int, block as int, stride as int)
            ==> #[trigger] final(codewords)@[p] == old(codewords)@[p],
        block_is_clean(old(codewords)@, num_data as int, block as int, stride as int, err_len as int)
            ==> r is Ok && final(codewords)@ == old(codewords)@,
{
    let ghost orig = codewords@;
    // 1. Compute the syndromes.
    let mut received: Vec<GF> = Vec::new();
    gather(codewords, block, num_data, stride, &mut received);
    let n_data = received.len();
    gather(codewords, num_data + block, codewords.len(), stride, &mut received);
    let n = received.len();
    proof {
        let f = |q: int| GF(orig[q]);
        let a = stride_positions(block as int, num_data as int, stride as int);
        let b = stride_positions(num_data + block, orig.len() as int, stride as int);
        assert((a + b).map_values(f) =~= a.map_values(f) + b.map_values(f));
        assert(received@ =~= block_received(orig, num_data as int, block as int, stride as int));
    }
    let mut syndromes: Vec<GF> = vec![GF(0); err_len];
    let have_non_zero = primitive_element_evaluation(&received, &mut syndromes);
    if !have_non_zero {
        return Ok(());
    }
    proof {
        let w = choose|k: int| 0 <= k < syndromes@.len() && #[trigger] syndromes@[k].0 != 0;
        assert(poly_value(block_received(orig, num_data as int, block as int, stride as int), w + 1) != 0);
    }

    // 2a. Find the error locations.
    let lambda_coeff = match locator {
        ErrorLocator::LevinsonDurbin => find_inv_error_locations_levinson_durbin(&syndromes)?,
        ErrorLocator::BerlekampMassey => find_inv_error_locations_bm(&syndromes)?,
        ErrorLocator::LuDecomposition => find_inv_error_locations_lu(&syndromes)?,
    };
    let mut inv_error_locations = chien_search(&lambda_coeff);
    let lambda_degree = checked_sub(lambda_coeff.len(), 1)?;
    if inv_error_locations.len() != lambda_degree
        || (inv_error_locations.len() > 0 && inv_error_locations[0].0 == 0) {
        return Err(ErrorDecodingError::Malfunction);
    }

    // 2b. Check for a malfunction of the decoder.
    check_malfunction(&syndromes, &lambda_coeff, err_len)?;

    // 3. Find the error values; they replace the syndromes.
    match evaluator {
        ErrorEvaluator::BjorckPereyra => find_error_values_bp(&mut inv_error_locations, lambda_coeff.as_slice(), &mut syndromes)?,
        ErrorEvaluator::Forney => find_error_values_forney(&mut inv_error_locations, &lambda_coeff, &mut syndromes)?,
    }
    let error_locations = inv_error_locations;

    // 4. Correct the errors.
    apply_corrections(codewords, &error_locations, &syndromes, n, n_data, num_data, block, stride)
}

/// The sum over `i < n` of `syn[j + i] * lambda[i]` in GF(256).
pub open spec fn spec_syndrome_check(syn: Seq<GF>, lambda: Seq<GF>, j: int, n: int) -> u8
    decreases n,
{
    if n <= 0 {
        0
    } else {
        spec_syndrome_check(syn, lambda, j, n - 1) ^ spec_mul(syn[j + n - 1].0, lambda[n - 1].0)
    }
}

/// The locator `lambda` (of degree `v`) passes the malfunction check for
/// `err_len` syndromes: `v < 2t` for `t = err_len / 2`, and for each `j` from
/// `t` to `2t - v - 1` the syndromes from `j` on exist and are annihilated by
/// the locator.
pub open spec fn spec_no_malfunction(syn: Seq<GF>, lambda: Seq<GF>, err_len: int) -> bool {
    &&& lambda.len() >= 1
    &&& lambda.len() <= 2 * (err_len / 2)
    &&& forall|j: int| err_len / 2 <= j && j + lambda.len() <= 2 * (err_len / 2) ==> #[trigger] annihilated_at(syn, lambda, j)
}

/// The syndromes from `j` on exist and the locator annihilates them.
pub open spec fn annihilated_at(syn: Seq<GF>, lambda: Seq<GF>, j: int) -> bool {
    j + lambda.len() <= syn.len() && spec_syndrome_check(syn, lambda, j, lambda.len() as int) == 0
}

/// Checks the conditions under which the decoder does not malfunction; see
/// M. Srinivasan and D. V. Sarwate, Malfunction in the Peterson-Gorenstein-Zierler
/// Decoder, IEEE Trans. Inf. Theory.
fn check_malfunction(syndromes: &Vec<GF>, lambda_coeff: &Vec<GF>, err_len: usize) -> (r: Result<(), ErrorDecodingError>)
    ensures
        r is Ok <==> spec_no_malfunction(syndromes@, lambda_coeff@, err_len as int),
        r is Err ==> r == Err::<(), ErrorDecodingError>(ErrorDecodingError::Malfunction),
{
    let lambda_degree = checked_sub(lambda_coeff.len(), 1)?;
    let t = err_len / 2;
    let v = lambda_degree;
    let twice_t = checked_mul(t, 2)?;
    let last_check = checked_sub(checked_sub(twice_t, v)?, 1)?;
    let mut j: usize = t;
    while j <= last_check
        invariant
            last_check < twice_t <= err_len,
            t == err_len / 2,
            twice_t == 2 * t,
            v == lambda_coeff@.len() - 1,
            lambda_coeff@.len() >= 1,
            last_check == twice_t - v - 1,
            t <= j,
            j <= last_check + 1 || j == t,
            forall|j2: int| t <= j2 < j ==> #[trigger] annihilated_at(syndromes@, lambda_coeff@, j2),
        decreases (if j <= last_check { last_check + 1 - j } else { 0 }),
    {
        if j > syndromes.len() || syndromes.len() - j < lambda_coeff.len() {
            proof {
                assert(!annihilated_at(syndromes@, lambda_coeff@, j as int));
                assert(!spec_no_malfunction(syndromes@, lambda_coeff@, err_len as int));
            }
            return Err(ErrorDecodingError::Malfunction);
        }
        let mut t_j = GF(0);
        let mut i: usize = 0;
        while i < lambda_coeff.len()
            invariant
                j + lambda_coeff@.len() <= syndromes@.len(),
                syndromes@.len() <= usize::MAX,
                i <= lambda_coeff@.len(),
                t_j.0 == spec_syndrome_check(syndromes@, lambda_coeff@, j as int, i as int),
            decreases lambda_coeff@.len() - i,
        {
            let p: usize = j + i;
            t_j = t_j.add(syndromes[p].mul(lambda_coeff[i]));
            i += 1;
        }
        if t_j.0 != 0 {
            proof {
                assert(!annihilated_at(syndromes@, lambda_coeff@, j as int));
                assert(!spec_no_malfunction(syndromes@, lambda_coeff@, err_len as int));
            }
            return Err(ErrorDecodingError::Malfunction);
        }
        j += 1;
    }
    proof {
        assert forall|j2: int| (err_len as int) / 2 <= j2 && j2 + lambda_coeff@.len() <= 2 * ((err_len as int) / 2)
            implies #[trigger] annihilated_at(syndromes@, lambda_coeff@, j2) by {
            assert(t <= j2 < j);
        }
    }
    Ok(())
}

/// The codeword that an error at the inverse location `loc` hits, for a
/// block of `n` received codewords of which `n_data` are data codewords:
/// the data codewords of the block stand at `block + stride * k`, the error
/// correction codewords at `num_data + block + stride * k`. None when the
/// location lies outside the block.
pub open spec fn spec_correction_target(
    loc: GF,
    n: int,
    n_data: int,
    num_data: int,
    block: int,
    stride: int,
    len: int,
) -> Option<int> {
    let i = crate::errorcode::galois::LOG[loc.0 as int] as int;
    let position = n - i - 1;
    if i >= n {
        None
    } else if position < n_data {
        if position * stride >= num_data - block {
            None
        } else {
            Some(block + position * stride)
        }
    } else {
        if (position - n_data) * stride >= len - num_data - block {
            None
        } else {
            Some(num_data + block + (position - n_data) * stride)
        }
    }
}

/// Once a location falls outside the block, the corrections stay stopped.
proof fn lemma_corrections_stop(
    cw: Seq<u8>,
    locs: Seq<GF>,
    vals: Seq<GF>,
    k: int,
    count: int,
    n: int,
    n_data: int,
    num_data: int,
    block: int,
    stride: int,
)
    requires
        0 <= k <= count,
    ensures
        !spec_corrections(cw, locs, vals, k, n, n_data, num_data, block, stride).0 ==> spec_corrections(
            cw, locs, vals, count, n, n_data, num_data, block, stride) == spec_corrections(
            cw, locs, vals, k, n, n_data, num_data, block, stride),
    decreases count - k,
{
    if k < count {
        lemma_corrections_stop(cw, locs, vals, k + 1, count, n, n_data, num_data, block, stride);
    }
}

/// Applies the first `count` corrections in order: each adds (XOR) its value
/// to the codeword that its location hits. The flag is false from the first
/// location outside the block on, where the corrections stop.
pub open spec fn spec_corrections(
    cw: Seq<u8>,
    locs: Seq<GF>,
    vals: Seq<GF>,
    count: int,
    n: int,
    n_data: int,
    num_data: int,
    block: int,
    stride: int,
) -> (bool, Seq<u8>)
    decreases count,
{
    if count <= 0 {
        (true, cw)
    } else {
        let prev = spec_corrections(cw, locs, vals, count - 1, n, n_data, num_data, block, stride);
        if !prev.0 {
            prev
        } else {
            match spec_correction_target(locs[count - 1], n, n_data, num_data, block, stride, cw.len() as int) {
                None => (false, prev.1),
                Some(t) => (true, prev.1.update(t, prev.1[t] ^ vals[count - 1].0)),
            }
        }
    }
}

/// Subtracts each error value from the codeword at its location.
///
/// `position` is the index in the block's own sequence of codewords: first
/// the `n_data` data codewords, then the error correction codewords. The
/// k-th data codeword of the block is at `block + k * stride`, the k-th
/// error correction codeword at `num_data + block + k * stride`.
fn apply_corrections(
    codewords: &mut Vec<u8>,
    error_locations: &Vec<GF>,
    values: &Vec<GF>,
    n: usize,
    n_data: usize,
    num_data: usize,
    block: usize,
    stride: usize,
) -> (r: Result<(), ErrorDecodingError>)
    requires
        0 < stride,
        block <= num_data,
        num_data + block <= old(codewords)@.len(),
    ensures
        final(codewords)@.len() == old(codewords)@.len(),
        forall|p: int| 0 <= p < old(codewords)@.len() && !in_block(p, num_data as int, block as int, stride as int)
            ==> #[trigger] final(codewords)@[p] == old(codewords)@[p],
        ({
            let count = if error_locations@.len() < values@.len() { error_locations@.len() } else { values@.len() };
            let res = spec_corrections(old(codewords)@, error_locations@, values@, count as int, n as int,
                n_data as int, num_data as int, block as int, stride as int);
            &&& final(codewords)@ == res.1
            &&& (r is Ok <==> res.0)
            &&& (r is Err ==> r == Err::<(), ErrorDecodingError>(ErrorDecodingError::ErrorsOutsideRange))
        }),
{
    let ghost orig = codewords@;
    let count = min_len(error_locations.len(), values.len());
    let mut idx: usize = 0;
    while idx < count
        invariant
            count <= error_locations@.len(),
            count <= values@.len(),
            0 < stride,
            block <= num_data,
            orig == old(codewords)@,
            num_data + block <= orig.len(),
            codewords@.len() == orig.len(),
            forall|p: int| 0 <= p < orig.len() && !in_block(p, num_data as int, block as int, stride as int)
                ==> #[trigger] codewords@[p] == orig[p],
            idx <= count,
            count == (if error_locations@.len() < values@.len() { error_locations@.len() } else { values@.len() }),
            spec_corrections(orig, error_locations@, values@, idx as int, n as int, n_data as int, num_data as int,
                block as int, stride as int) == (true, codewords@),
        decreases count - idx,
    {
        proof {
            assert(spec_corrections(orig, error_locations@, values@, idx + 1, n as int, n_data as int,
                num_data as int, block as int, stride as int) == (match spec_correction_target(error_locations@[idx as int],
                n as int, n_data as int, num_data as int, block as int, stride as int, orig.len() as int) {
                None => (false, codewords@),
                Some(t) => (true, codewords@.update(t, codewords@[t] ^ values@[idx as int].0)),
            }));
            lemma_corrections_stop(orig, error_locations@, values@, idx + 1, count as int, n as int, n_data as int,
                num_data as int, block as int, stride as int);
        }
        let err = values[idx];
        let i = error_locations[idx].log();
        if i >= n {
            return Err(ErrorDecodingError::ErrorsOutsideRange);
        }
        let position = n - i - 1;
        let target: usize = if position < n_data {
            let index = match position.checked_mul(stride) {
                Some(x) => x,
                None => return Err(ErrorDecodingError::ErrorsOutsideRange),
            };
            if index >= num_data - block {
                return Err(ErrorDecodingError::ErrorsOutsideRange);
            }
            proof {
                vstd::arithmetic::div_mod::lemma_mod_multiples_basic(position as int, stride as int);
                assert((block + index - block) % (stride as int) == 0);
            }
            block + index
        } else {
            let len = codewords.len();
            let index = match (position - n_data).checked_mul(stride) {
                Some(x) => x,
                None => {
                    proof {
                        assert(len == orig.len());
                        assert((position - n_data) * stride > usize::MAX);
                    }
                    return Err(ErrorDecodingError::ErrorsOutsideRange);
                },
            };
            if index >= codewords.len() - num_data - block {
                return Err(ErrorDecodingError::ErrorsOutsideRange);
            }
            proof {
                vstd::arithmetic::div_mod::lemma_mod_multiples_basic((position - n_data) as int, stride as int);
                assert((num_data + block + index - num_data - block) % (stride as int) == 0);
            }
            num_data + block + index
        };
        let corrected = codewords[target] ^ err.0;
        codewords.set(target, corrected);
        idx += 1;
    }
    Ok(())
}

/// The entry `index` of `values`, or `Malfunction` when there is none.
fn value(values: &Vec<GF>, index: usize) -> (r: Result<GF, ErrorDecodingError>)
    ensures
        index < values@.len() ==> r == Ok::<GF, ErrorDecodingError>(values@[index as int]),
        index >= values@.len() ==> r == Err::<GF, ErrorDecodingError>(ErrorDecodingError::Malfunction),
{
    if index < values.len() {
        Ok(values[index])
    } else {
        Err(ErrorDecodingError::Malfunction)
    }
}

/// Replaces the entry `index` of `values`, or reports `Malfunction` when there is none.
fn set_value(values: &mut Vec<GF>, index: usize, new_value: GF) -> (r: Result<(), ErrorDecodingError>)
    ensures
        index < old(values)@.len() ==> r is Ok && final(values)@ == old(values)@.update(index as int, new_value),
        index >= old(values)@.len() ==> r == Err::<(), ErrorDecodingError>(ErrorDecodingError::Malfunction)
            && final(values)@ == old(values)@,
{
    if index < values.len() {
        values.set(index, new_value);
        Ok(())
    } else {
        Err(ErrorDecodingError::Malfunction)
    }
}

/// A copy of the entries `start..end` of `values`, or `Malfunction` when the range does not fit.
fn values(source: &Vec<GF>, start: usize, end: usize) -> (r: Result<Vec<GF>, ErrorDecodingError>)
    ensures
        start <= end <= source@.len() ==> (r matches Ok(v) && v@ == source@.subrange(start as int, end as int)),
        !(start <= end <= source@.len()) ==> r == Err::<Vec<GF>, ErrorDecodingError>(ErrorDecodingError::Malfunction),
{
    if start <= end && end <= source.len() {
        let mut out: Vec<GF> = Vec::with_capacity(end - start);
        let mut i: usize = start;
        while i < end
            invariant
                start <= i <= end <= source@.len(),
                out@ == source@.subrange(start as int, i as int),
            decreases end - i,
        {
            out.push(source[i]);
            i += 1;
            assert(out@ =~= source@.subrange(start as int, i as int));
        }
        Ok(out)
    } else {
        Err(ErrorDecodingError::Malfunction)
    }
}

/// A copy of the entries `start..=end` of `source`, or `Malfunction` when the range does not fit.
fn values_inclusive(source: &Vec<GF>, start: usize, end: usize) -> (r: Result<Vec<GF>, ErrorDecodingError>)
    ensures
        start <= end + 1 <= source@.len() ==> (r matches Ok(v) && v@ == source@.subrange(start as int, end + 1)),
        !(start <= end + 1 <= source@.len()) ==> r == Err::<Vec<GF>, ErrorDecodingError>(ErrorDecodingError::Malfunction),
{
    if end < source.len() {
        values(source, start, end + 1)
    } else {
        Err(ErrorDecodingError::Malfunction)
    }
}

/// `a + b`, or `Malfunction` on overflow.
fn checked_add(a: usize, b: usize) -> (r: Result<usize, ErrorDecodingError>)
    ensures
        a + b <= usize::MAX ==> r == Ok::<usize, ErrorDecodingError>((a + b) as usize),
        a + b > usize::MAX ==> r == Err::<usize, ErrorDecodingError>(ErrorDecodingError::Malfunction),
{
    match a.checked_add(b) {
        Some(v) => Ok(v),
        None => Err(ErrorDecodingError::Malfunction),
    }
}

/// `a * b`, or `Malfunction` on overflow.
fn checked_mul(a: usize, b: usize) -> (r: Result<usize, ErrorDecodingError>)
    ensures
        a * b <= usize::MAX ==> r == Ok::<usize, ErrorDecodingError>((a * b) as usize),
        a * b > usize::MAX ==> r == Err::<usize, ErrorDecodingError>(ErrorDecodingError::Malfunction),
{
    match a.checked_mul(b) {
        Some(v) => Ok(v),
        None => Err(ErrorDecodingError::Malfunction),
    }
}

/// `a - b`, or `Malfunction` when `b > a`.
fn checked_sub(a: usize, b: usize) -> (r: Result<usize, ErrorDecodingError>)
    ensures
        b <= a ==> r == Ok::<usize, ErrorDecodingError>((a - b) as usize),
        b > a ==> r == Err::<usize, ErrorDecodingError>(ErrorDecodingError::Malfunction),
{
    if b <= a {
        Ok(a - b)
    } else {
        Err(ErrorDecodingError::Malfunction)
    }
}

/// Sum of `a[i] * b[i]` over the first `k` indices.
pub open spec fn dot_prefix(a: Seq<GF>, b: Seq<GF>, k: int) -> u8
    decreases k,
{
    if k <= 0 {
        0
    } else {
        dot_prefix(a, b, k - 1) ^ crate::errorcode::galois::spec_mul(a[k - 1].0, b[k - 1].0)
    }
}

/// Sum of the products of the entries of two sequences, over the shorter length.
fn zip_dot(a: &Vec<GF>, b: &Vec<GF>) -> (r: GF)
    ensures
        r.0 == dot_prefix(a@, b@, if a@.len() < b@.len() { a@.len() as int } else { b@.len() as int }),
{
    let n = if a.len() < b.len() { a.len() } else { b.len() };
    let mut acc = GF(0);
    let mut i: usize = 0;
    while i < n
        invariant
            n <= a@.len(),
            n <= b@.len(),
            n == (if a@.len() < b@.len() { a@.len() as int } else { b@.len() as int }),
            i <= n,
            acc.0 == dot_prefix(a@, b@, i as int),
        decreases n - i,
    {
        acc = acc.add(a[i].mul(b[i]));
        i += 1;
    }
    acc
}

/// The scalar product of two vectors of equal length, or `Malfunction` when the lengths differ.
fn dot(a: &Vec<GF>, b: &Vec<GF>) -> (r: Result<GF, ErrorDecodingError>)
    ensures
        a@.len() == b@.len() ==> (r matches Ok(g) && g.0 == dot_prefix(a@, b@, a@.len() as int)),
        a@.len() != b@.len() ==> r == Err::<GF, ErrorDecodingError>(ErrorDecodingError::Malfunction),
{
    if a.len() != b.len() {
        return Err(ErrorDecodingError::Malfunction);
    }
    Ok(zip_dot(a, b))
}

/// Finds the error values by solving the system of coefficients with the
/// Björck-Pereyra algorithm, in O(t^2).
///
/// `x_loc` holds the inverses of the error locations and is replaced by the
/// locations themselves; the values replace the first entries of `syn`.
/// Whether the elements are non-zero and pairwise distinct.
pub open spec fn distinct_nonzero(s: Seq<GF>) -> bool {
    &&& forall|i: int| 0 <= i < s.len() ==> (#[trigger] s[i]).0 != 0
    &&& forall|i: int, j: int| 0 <= i < s.len() && 0 <= j < s.len() && i != j ==> #[trigger] s[i] != #[trigger] s[j]
}

pub fn find_error_values_bp(
    x_loc: &mut Vec<GF>,
    _lambda: &[GF],
    syn: &mut Vec<GF>,
) -> (r: Result<(), ErrorDecodingError>)
    ensures
        final(x_loc)@.len() == old(x_loc)@.len(),
        final(syn)@.len() == old(syn)@.len(),
        (old(x_loc)@.len() == 0 || old(syn)@.len() < old(x_loc)@.len())
            ==> r == Err::<(), ErrorDecodingError>(ErrorDecodingError::Malfunction),
        r is Ok ==> forall|i: int| 0 <= i < old(x_loc)@.len() ==> old(x_loc)@[i].0 != 0
            && #[trigger] final(x_loc)@[i] == GF(spec_div(1, old(x_loc)@[i].0)),
        old(x_loc)@.len() > 0 && old(syn)@.len() >= old(x_loc)@.len() && distinct_nonzero(old(x_loc)@) ==> r is Ok,
{
    let ghost orig = x_loc@;
    let ghost fine = distinct_nonzero(orig);
    let e = x_loc.len();
    if e == 0 || syn.len() < e {
        return Err(ErrorDecodingError::Malfunction);
    }
    // Invert the zeros to obtain the error locations.
    let mut i: usize = 0;
    while i < e
        invariant
            e == x_loc@.len(),
            e == orig.len(),
            syn@.len() == old(syn)@.len(),
            i <= e,
            orig == old(x_loc)@,
            forall|k: int| 0 <= k < i ==> #[trigger] orig[k].0 != 0,
            forall|k: int| 0 <= k < i ==> #[trigger] x_loc@[k] == GF(spec_div(1, orig[k].0)),
            forall|k: int| i <= k < e ==> #[trigger] x_loc@[k] == orig[k],
            fine == distinct_nonzero(orig),
        decreases e - i,
    {
        // The constant coefficient is 1, so no zero is 0.
        if x_loc[i].0 == 0 {
            proof { assert(orig[i as int].0 == 0); }
            return Err(ErrorDecodingError::Malfunction);
        }
        assert(orig[i as int].0 != 0);
        let z = GF(1).div(x_loc[i]);
        let ghost prev = x_loc@;
        x_loc.set(i, z);
        assert(x_loc@[i as int] == GF(spec_div(1, orig[i as int].0)));
        assert forall|k: int| 0 <= k < i + 1 implies orig[k].0 != 0
            && #[trigger] x_loc@[k] == GF(spec_div(1, orig[k].0)) by {
            if k < i {
                assert(x_loc@[k] == prev[k]);
            }
        }
        i += 1;
    }
    let ghost inverted = x_loc@;
    proof {
        if fine {
            assert forall|p: int| 0 <= p < e implies (#[trigger] inverted[p]).0 != 0 by {
                lemma_inverse_injective(orig[p].0, orig[p].0);
            }
            assert forall|p: int, q: int| 0 <= p < e && 0 <= q < e && p != q implies #[trigger] inverted[p]
                != #[trigger] inverted[q] by {
                assert(orig[p] != orig[q]);
                lemma_inverse_injective(orig[p].0, orig[q].0);
            }
        }
    }
    // The matrix of coefficients is a diagonal matrix times a Vandermonde
    // matrix. Solve the Vandermonde system first (Björck-Pereyra).
    let mut k: usize = 0;
    while k < e - 1
        invariant
            e == x_loc@.len(),
            e == old(x_loc)@.len(),
            x_loc@ == inverted,
            syn@.len() == old(syn)@.len(),
                e <= syn@.len(),
                x_loc@ == inverted,
                fine ==> distinct_nonzero(inverted),
                fine == distinct_nonzero(old(x_loc)@),
            k <= e - 1,
        decreases e - 1 - k,
    {
        let x_loc_k = x_loc[k];
        let mut j: usize = e - 1;
        while j > k
            invariant
                e == x_loc@.len(),
                e == old(x_loc)@.len(),
                syn@.len() == old(syn)@.len(),
                e <= syn@.len(),
                x_loc@ == inverted,
                fine ==> distinct_nonzero(inverted),
                fine == distinct_nonzero(old(x_loc)@),
                k < j < e || j == k,
            decreases j,
        {
            let previous = checked_sub(j, 1)?;
            let tmp = value(syn, previous)?;
            let updated = value(syn, j)?.sub(x_loc_k.mul(tmp));
            set_value(syn, j, updated)?;
            j -= 1;
        }
        k += 1;
    }
    let mut k: usize = e - 1;
    while k > 0
        invariant
            e == x_loc@.len(),
            e == old(x_loc)@.len(),
            x_loc@ == inverted,
            syn@.len() == old(syn)@.len(),
                e <= syn@.len(),
                x_loc@ == inverted,
                fine ==> distinct_nonzero(inverted),
                fine == distinct_nonzero(old(x_loc)@),
            k <= e - 1,
        decreases k,
    {
        k -= 1;
        let mut j: usize = k + 1;
        while j < e
            invariant
                e == x_loc@.len(),
                e == old(x_loc)@.len(),
                syn@.len() == old(syn)@.len(),
                e <= syn@.len(),
                x_loc@ == inverted,
                fine ==> distinct_nonzero(inverted),
                fine == distinct_nonzero(old(x_loc)@),
                k < e - 1,
                k + 1 <= j,
                j <= e,
            decreases e - j,
        {
            let previous = checked_sub(checked_sub(j, k)?, 1)?;
            let a = value(x_loc, j)?;
            let b = value(x_loc, previous)?;
            let divisor = a.sub(b);
            if divisor.0 == 0 {
                proof {
                    let (x, y) = (a.0, b.0);
                    assert(x ^ y == 0u8 ==> x == y) by (bit_vector);
                    assert(a == inverted[j as int] && b == inverted[previous as int]);
                }
                return Err(ErrorDecodingError::Malfunction);
            }
            let updated = value(syn, j)?.div(divisor);
            set_value(syn, j, updated)?;
            j += 1;
        }
        let mut j: usize = k;
        while j < e - 1
            invariant
                e == x_loc@.len(),
                e == old(x_loc)@.len(),
                syn@.len() == old(syn)@.len(),
                e <= syn@.len(),
                x_loc@ == inverted,
                fine ==> distinct_nonzero(inverted),
                fine == distinct_nonzero(old(x_loc)@),
                j <= e - 1,
            decreases e - 1 - j,
        {
            let next = checked_add(j, 1)?;
            let updated = value(syn, j)?.sub(value(syn, next)?);
            set_value(syn, j, updated)?;
            j += 1;
        }
    }
    // Finally solve the diagonal system.
    let mut i: usize = 0;
    while i < e
        invariant
            e == x_loc@.len(),
            e == old(x_loc)@.len(),
            x_loc@ == inverted,
            syn@.len() == old(syn)@.len(),
                e <= syn@.len(),
                x_loc@ == inverted,
                fine ==> distinct_nonzero(inverted),
                fine == distinct_nonzero(old(x_loc)@),
            i <= e,
        decreases e - i,
    {
        let divisor = value(x_loc, i)?;
        if divisor.0 == 0 {
            proof { assert(divisor == inverted[i as int]); }
            return Err(ErrorDecodingError::Malfunction);
        }
        let updated = value(syn, i)?.div(divisor);
        set_value(syn, i, updated)?;
        i += 1;
    }
    Ok(())
}

/// The error locator polynomial by the Berlekamp-Massey algorithm, highest
/// degree first with the constant coefficient last.
#[allow(dead_code)]
fn find_inv_error_locations_bm(syn: &Vec<GF>) -> (r: Result<Vec<GF>, ErrorDecodingError>)
    ensures
        r matches Ok(c) ==> c@.len() >= 1 && c@.len() - 1 <= syn@.len() / 2,
{
    // Current length of the LFSR.
    let mut len_lfsr: usize = 0;
    // Current connection polynomial.
    let mut cur: Vec<GF> = vec![GF(1)];
    // Connection polynomial before the last change of length.
    let mut prev: Vec<GF> = vec![GF(1)];
    // Shift of the update: l = k - m.
    let mut l: usize = 1;
    // Previous discrepancy.
    let mut discrepancy_m = GF(1);
    let mut k: usize = 0;
    while k < syn.len()
        invariant
            k <= syn@.len(),
            len_lfsr <= k,
            1 <= l,
            cur@.len() >= 1,
        decreases syn@.len() - k,
    {
        // Compute the discrepancy.
        let cur_tail = values(&cur, 1, cur.len())?;
        let syn_prefix = reversed(&values(syn, 0, k)?);
        let discrepancy = value(syn, k)?.add(zip_dot(&cur_tail, &syn_prefix));
        if discrepancy.0 == 0 {
            l = checked_add(l, 1)?;
        } else if checked_mul(2, len_lfsr)? > k {
            // Update without changing the length.
            let tmp = discrepancy.div(discrepancy_m);
            if l > cur.len() {
                return Err(ErrorDecodingError::Malfunction);
            }
            subtract_scaled(&mut cur, l, &prev, tmp);
            l = checked_add(l, 1)?;
        } else {
            // Update with a change of length.
            let cur_clone_before = cur.clone();
            let tmp = discrepancy.div(discrepancy_m);
            let new_len = checked_add(l, prev.len())?;
            cur.resize(new_len, GF(0));
            subtract_scaled(&mut cur, l, &prev, tmp);
            len_lfsr = k + 1 - len_lfsr;
            prev = cur_clone_before;
            discrepancy_m = discrepancy;
            l = 1;
        }
        k += 1;
    }
    if cur.len() - 1 > syn.len() / 2 {
        Err(ErrorDecodingError::TooManyErrors)
    } else {
        Ok(reversed(&cur))
    }
}

/// The entries of `v` in reverse order.
fn reversed(v: &Vec<GF>) -> (r: Vec<GF>)
    ensures
        r@ == Seq::new(v@.len(), |i: int| v@[v@.len() - 1 - i]),
{
    let n = v.len();
    let mut out: Vec<GF> = Vec::with_capacity(n);
    let mut i: usize = 0;
    while i < n
        invariant
            n == v@.len(),
            i <= n,
            out@ == Seq::new(i as nat, |k: int| v@[n - 1 - k]),
        decreases n - i,
    {
        out.push(v[n - 1 - i]);
        i += 1;
        assert(out@ =~= Seq::new(i as nat, |k: int| v@[n - 1 - k]));
    }
    out
}

/// `target[offset + i] -= factor * source[i]` for the indices that both have.
fn subtract_scaled(target: &mut Vec<GF>, offset: usize, source: &Vec<GF>, factor: GF)
    requires
        offset <= old(target)@.len(),
    ensures
        final(target)@.len() == old(target)@.len(),
{
    let room = target.len() - offset;
    let n = if room < source.len() { room } else { source.len() };
    let mut i: usize = 0;
    while i < n
        invariant
            offset + n <= target@.len(),
            target@.len() <= usize::MAX,
            n <= source@.len(),
            target@.len() == old(target)@.len(),
            i <= n,
        decreases n - i,
    {
        let p: usize = offset + i;
        let updated = target[p].sub(factor.mul(source[i]));
        target.set(p, updated);
        i += 1;
    }
}

/// The error locator polynomial by solving the syndrome matrix equation with
/// LU decomposition, for `v`, `v - 1`, ..., 1 errors in turn.
#[allow(dead_code)]
fn find_inv_error_locations_lu(syndromes: &Vec<GF>) -> (r: Result<Vec<GF>, ErrorDecodingError>)
    ensures
        r matches Ok(c) ==> c@.len() >= 2 && c@.last() == GF(1),
{
    let v = syndromes.len() / 2;
    // Build the syndrome matrix, row by row.
    let size = checked_mul(v, v)?;
    let mut matrix: Vec<GF> = vec![GF(0); size];
    let mut i: usize = 0;
    while i < v
        invariant
            i <= v,
        decreases v - i,
    {
        let mut j: usize = 0;
        while j < v
            invariant
                i < v,
                j <= v,
            decreases v - j,
        {
            let matrix_index = checked_add(checked_mul(i, v)?, j)?;
            let syndrome_index = checked_add(i, j)?;
            set_value(&mut matrix, matrix_index, value(syndromes, syndrome_index)?)?;
            j += 1;
        }
        i += 1;
    }
    // Try decreasing numbers of errors.
    let mut coeff: Vec<GF> = Vec::new();
    let mut vi: usize = v;
    while vi >= 1
        invariant
            vi <= v,
        decreases vi,
    {
        let mut m = matrix.clone();
        let end = checked_mul(2, vi)?;
        let mut b = values(syndromes, vi, end)?;
        if b.len() != vi {
            return Err(ErrorDecodingError::Malfunction);
        }
        if solve(&mut m, &mut b, v) {
            b.truncate(vi);
            coeff = b;
            break;
        }
        vi -= 1;
    }
    if coeff.len() == 0 {
        // Only reached when no system could be solved.
        return Err(ErrorDecodingError::TooManyErrors);
    }
    coeff.push(GF(1));
    Ok(coeff)
}

/// The error values by the Forney algorithm.
///
/// `inv_x_locs` holds the inverses of the error locations and is replaced by
/// the locations; `lambda` holds the coefficients of the error locator
/// polynomial, highest first; the values replace the first entries of `syn`.
#[allow(dead_code)]
fn find_error_values_forney(
    inv_x_locs: &mut Vec<GF>,
    lambda: &Vec<GF>,
    syn: &mut Vec<GF>,
) -> (r: Result<(), ErrorDecodingError>)
    ensures
        final(inv_x_locs)@.len() == old(inv_x_locs)@.len(),
        final(syn)@.len() == old(syn)@.len(),
        r is Ok ==> forall|i: int| 0 <= i < old(inv_x_locs)@.len() ==> #[trigger] final(inv_x_locs)@[i]
            == GF(spec_div(1, old(inv_x_locs)@[i].0)),
{
    let n = syn.len();
    // Lambda(x) * S(x) mod x^n.
    let mut omega: Vec<GF> = vec![GF(0); n];
    let mut i: usize = 0;
    while i < n
        invariant
            n == syn@.len(),
            syn@ == old(syn)@,
            inv_x_locs@ == old(inv_x_locs)@,
            i <= n,
        decreases n - i,
    {
        // syn[i] is the coefficient of x^i.
        let si = syn[i];
        let remaining = n - i;
        let mut j: usize = 0;
        while j < remaining && j < lambda.len()
            invariant
                n == syn@.len(),
                i < n,
                remaining == n - i,
                j <= remaining,
            decreases remaining - j,
        {
            let lj = lambda[lambda.len() - 1 - j];
            let offset = checked_add(j, i)?;
            let index = checked_sub(checked_sub(n, 1)?, offset)?;
            let updated = value(&omega, index)?.add(lj.mul(si));
            set_value(&mut omega, index, updated)?;
            j += 1;
        }
        i += 1;
    }
    let ghost orig = inv_x_locs@;
    let count = if inv_x_locs.len() < syn.len() { inv_x_locs.len() } else { syn.len() };
    let mut i: usize = 0;
    while i < count
        invariant
            syn@.len() == old(syn)@.len(),
            inv_x_locs@ == orig,
            orig == old(inv_x_locs)@,
            count <= syn@.len(),
            count <= inv_x_locs@.len(),
            i <= count,
        decreases count - i,
    {
        let x_inv = inv_x_locs[i];
        let mut omega_x = GF(0);
        let mut p: usize = 0;
        while p < omega.len()
            invariant
                p <= omega@.len(),
            decreases omega@.len() - p,
        {
            omega_x = omega_x.mul(x_inv).add(omega[p]);
            p += 1;
        }
        let mut lambda_der_x = GF(0);
        let lambda_end = checked_sub(lambda.len(), 1)?;
        let mut k: usize = 0;
        while k < lambda_end
            invariant
                lambda_end < lambda@.len(),
                k <= lambda_end,
            decreases lambda_end - k,
        {
            // The coefficient is multiplied by an integer, i.e. added to
            // itself that many times.
            lambda_der_x = lambda_der_x.mul(x_inv).add(lambda[k].mul_usize(lambda.len() - k - 1));
            k += 1;
        }
        if lambda_der_x.0 == 0 {
            return Err(ErrorDecodingError::Malfunction);
        }
        syn.set(i, omega_x.neg().div(lambda_der_x));
        i += 1;
    }
    // Invert the zeros to obtain the error locations.
    let e = inv_x_locs.len();
    let mut i: usize = 0;
    while i < e
        invariant
            e == inv_x_locs@.len(),
            e == orig.len(),
            orig == old(inv_x_locs)@,
            syn@.len() == old(syn)@.len(),
            i <= e,
            forall|k: int| 0 <= k < i ==> #[trigger] inv_x_locs@[k] == GF(spec_div(1, orig[k].0)),
            forall|k: int| i <= k < e ==> #[trigger] inv_x_locs@[k] == orig[k],
        decreases e - i,
    {
        // The constant coefficient is 1, so 0 is never a zero of the polynomial.
        if inv_x_locs[i].0 == 0 {
            return Err(ErrorDecodingError::Malfunction);
        }
        let z = GF(1).div(inv_x_locs[i]);
        inv_x_locs.set(i, z);
        i += 1;
    }
    Ok(())
}

/// The smaller of two lengths.
fn min_len(a: usize, b: usize) -> (r: usize)
    ensures
        r <= a,
        r <= b,
        r == a || r == b,
{
    if a < b {
        a
    } else {
        b
    }
}

/// `target[i] = target[i] + factor * source[i]` for the indices that both have.
fn add_scaled(target: &mut Vec<GF>, source: &Vec<GF>, factor: GF)
    ensures
        final(target)@.len() == old(target)@.len(),
{
    let n = min_len(target.len(), source.len());
    let mut i: usize = 0;
    while i < n
        invariant
            n <= target@.len(),
            n <= source@.len(),
            target@.len() == old(target)@.len(),
            i <= n,
        decreases n - i,
    {
        let updated = target[i].add(factor.mul(source[i]));
        target.set(i, updated);
        i += 1;
    }
}

/// Checks equation (3) of the Levinson-Durbin recursion: the Hankel matrix
/// of the syndromes of size `v` times `y` is the last unit vector.
fn check_unit_equation(syn: &Vec<GF>, y: &Vec<GF>, v: usize) -> (r: Result<(), ErrorDecodingError>)
{
    let mut i: usize = 0;
    while i < v
        invariant
            i <= v,
        decreases v - i,
    {
        let mut row = GF(0);
        let mut j: usize = 0;
        while j < v
            invariant
                i < v,
                j <= v,
            decreases v - j,
        {
            row = row.add(value(syn, checked_add(i, j)?)?.mul(value(y, j)?));
            j += 1;
        }
        let target = if i == v - 1 { GF(1) } else { GF(0) };
        if row != target {
            return Err(ErrorDecodingError::Malfunction);
        }
        i += 1;
    }
    Ok(())
}

/// Checks equation (4) of the Levinson-Durbin recursion: the Hankel matrix
/// of the syndromes of size `v` times `w` is the column of the next syndromes.
fn check_locator_equation(syn: &Vec<GF>, w: &Vec<GF>, v: usize) -> (r: Result<(), ErrorDecodingError>)
{
    let mut i: usize = 0;
    while i < v
        invariant
            i <= v,
        decreases v - i,
    {
        let mut row = GF(0);
        let mut j: usize = 0;
        while j < v
            invariant
                i < v,
                j <= v,
            decreases v - j,
        {
            row = row.add(value(syn, checked_add(i, j)?)?.mul(value(w, j)?));
            j += 1;
        }
        if row != value(syn, checked_add(v, i)?)? {
            return Err(ErrorDecodingError::Malfunction);
        }
        i += 1;
    }
    Ok(())
}

/// The smallest `i` in `1..search_end` whose discrepancy `syn[v + i ..= 2v + i] . tmp`
/// is non-zero, with that discrepancy (equation (7)).
fn find_singular_step(
    syn: &Vec<GF>,
    tmp: &Vec<GF>,
    v: usize,
    search_end: usize,
) -> (r: Result<Option<(usize, GF)>, ErrorDecodingError>)
    ensures
        r matches Ok(Some((m, sigma_m))) ==> 1 <= m < search_end && sigma_m.0 != 0,
{
    let twice_v = checked_mul(2, v)?;
    let mut i: usize = 1;
    while i < search_end
        invariant
            1 <= i,
        decreases search_end - i,
    {
        let start = checked_add(v, i)?;
        let end = checked_add(twice_v, i)?;
        let sigma_i = dot(&values_inclusive(syn, start, end)?, tmp)?;
        if sigma_i.0 != 0 {
            return Ok(Some((i, sigma_i)));
        }
        i += 1;
    }
    Ok(None)
}

/// Finds the error locator polynomial with the Levinson-Durbin recursion,
/// which uses that the syndrome matrix is a Hankel matrix (Schmidt and
/// Fettweis, "Levinson-Durbin Algorithm Used For Fast BCH Decoding").
///
/// The coefficients come highest degree first; the constant coefficient,
/// last, is 1.
#[verifier::loop_isolation(false)]
fn find_inv_error_locations_levinson_durbin(syn: &Vec<GF>) -> (r: Result<Vec<GF>, ErrorDecodingError>)
    ensures
        (forall|i: int| 0 <= i < syn@.len() / 2 ==> #[trigger] syn@[i].0 == 0)
            ==> r == Err::<Vec<GF>, ErrorDecodingError>(ErrorDecodingError::TooManyErrors),
        r matches Ok(c) ==> 2 <= c@.len() <= syn@.len() / 2 + 1 && c@.last() == GF(1),
{
    let t = syn.len() / 2;
    if t == 0 {
        return Err(ErrorDecodingError::TooManyErrors);
    }
    // The smallest v such that H_v is nonsingular.
    let mut zeros: usize = 0;
    while zeros < syn.len() && syn[zeros].0 == 0
        invariant
            zeros <= syn@.len(),
            forall|i: int| 0 <= i < zeros ==> #[trigger] syn@[i].0 == 0,
        decreases syn@.len() - zeros,
    {
        zeros += 1;
    }
    if zeros >= t {
        return Err(ErrorDecodingError::TooManyErrors);
    }
    let mut v: usize = zeros + 1;

    // The initial y = [1/b_v, 0, ..., 0].
    let mut y: Vec<GF> = Vec::with_capacity(t);
    let v_minus_one = checked_sub(v, 1)?;
    let initial_pivot = value(syn, v_minus_one)?;
    if initial_pivot.0 == 0 {
        return Err(ErrorDecodingError::TooManyErrors);
    }
    y.push(GF(1).div(initial_pivot));
    let mut k: usize = 0;
    while k < v_minus_one
        invariant
            k <= v_minus_one,
        decreases v_minus_one - k,
    {
        y.push(GF(0));
        k += 1;
    }

    // The initial w: solve the lower right triangular system H_v w = h_v.
    let initial_end = checked_sub(checked_mul(2, v)?, 1)?;
    let mut w = reversed(&values_inclusive(syn, v, initial_end)?);
    let mut i: usize = 0;
    while i < v
        invariant
            w@.len() == v,
            i <= v,
        decreases v - i,
    {
        let target_index = checked_sub(checked_sub(v, 1)?, i)?;
        let start = checked_sub(v, i)?;
        let mut j: usize = start;
        while j < v
            invariant
                w@.len() == v,
                start <= j <= v,
            decreases v - j,
        {
            let wj = value(&w, j)?;
            let syndrome = value(syn, checked_add(i, j)?)?;
            let updated = value(&w, target_index)?.sub(syndrome.mul(wj));
            set_value(&mut w, target_index, updated)?;
            j += 1;
        }
        let pivot = value(syn, v_minus_one)?;
        if pivot.0 == 0 {
            return Err(ErrorDecodingError::TooManyErrors);
        }
        let updated = value(&w, target_index)?.div(pivot);
        set_value(&mut w, target_index, updated)?;
        i += 1;
    }

    let mut tmp: Vec<GF> = Vec::with_capacity(t);
    let mut sigma: Vec<GF> = Vec::with_capacity(t);
    let mut gamma: Vec<GF> = Vec::with_capacity(t);

    while v < t
        invariant
            1 <= v <= t,
            t == syn@.len() / 2,
            w@.len() == v,
        decreases t - v,
    {
        // tmp = [w_v, -1]
        tmp = w.clone();
        tmp.push(GF(1).neg());

        let twice_v = checked_mul(2, v)?;
        let eps_v = dot(&values_inclusive(syn, v, twice_v)?, &tmp)?;
        if eps_v.0 != 0 {
            // The regular case.

            // 1. w = [0, w]; the next steps are the parts of equation (6).
            w.insert(0, GF(0));

            // 2. w[..v] -= eps_v * y
            let lim = min_len(v, y.len());
            let mut i: usize = 0;
            while i < lim
                invariant
                    lim <= w@.len(),
                    lim <= y@.len(),
                    i <= lim,
                decreases lim - i,
            {
                let updated = w[i].sub(eps_v.mul(y[i]));
                w.set(i, updated);
                i += 1;
            }

            let beta_start = checked_add(v, 1)?;
            let beta_end = checked_add(twice_v, 1)?;
            let beta = dot(&values_inclusive(syn, beta_start, beta_end)?, &tmp)?.div(eps_v);
            let gamma_end = checked_sub(twice_v, 1)?;
            let gamma_value = dot(&values_inclusive(syn, v, gamma_end)?, &y)?;
            // 3. w -= (beta - gamma) * eps * y_{v+1}
            add_scaled(&mut w, &tmp, beta.sub(gamma_value));

            // 4. y = [w_v, -1] / eps_v, equation (5)
            let eps_inv = GF(1).div(eps_v);
            let lim = min_len(y.len(), tmp.len());
            let mut i: usize = 0;
            while i < lim
                invariant
                    lim <= y@.len(),
                    lim <= tmp@.len(),
                    i <= lim,
                decreases lim - i,
            {
                y.set(i, tmp[i].mul(eps_inv));
                i += 1;
            }
            y.push(eps_inv.neg());
            v += 1;
        } else {
            // The singular case, which is rare.

            // Find m of equation (7); mostly m = 1.
            let search_end = checked_sub(t, v)?;
            let (m, sigma_m) = match find_singular_step(syn, &tmp, v, search_end)? {
                Some(found) => found,
                None => break,
            };
            let n = checked_add(m, v)?;

            // The sigma_i used later on (equation 7).
            sigma.clear();
            sigma.push(sigma_m);
            let sigma_start = checked_add(m, 1)?;
            let sigma_stop = checked_add(checked_mul(2, m)?, 1)?;
            let mut k: usize = sigma_start;
            while k < sigma_stop
                invariant
                    sigma_start <= k <= sigma_stop || sigma_stop < sigma_start,
                decreases sigma_stop - k,
            {
                let start = checked_add(v, k)?;
                let end = checked_add(twice_v, k)?;
                sigma.push(dot(&values_inclusive(syn, start, end)?, &tmp)?);
                k += 1;
            }
            if sigma.len() != checked_add(m, 1)? {
                return Err(ErrorDecodingError::Malfunction);
            }

            // Step through the w^k, kept in tmp (equation 8).
            if tmp.pop().is_none() {
                return Err(ErrorDecodingError::Malfunction);
            }
            let steps = checked_add(m, 1)?;
            let mut k: usize = 0;
            while k < steps
                invariant
                    k <= steps,
                decreases steps - k,
            {
                let rho_index = checked_add(twice_v, k)?;
                let dot_end = checked_sub(twice_v, 1)?;
                let rho = value(syn, rho_index)?.sub(dot(&values_inclusive(syn, v, dot_end)?, &tmp)?);
                let eta_index = checked_sub(v, 1)?;
                let eta = value(&tmp, eta_index)?;
                // 1. w^k = U * w_k: shift the values to the right.
                if tmp.pop().is_none() {
                    return Err(ErrorDecodingError::Malfunction);
                }
                tmp.insert(0, GF(0));
                // 2. w^k += rho * y + eta * w_v
                let lim = min_len(min_len(tmp.len(), y.len()), w.len());
                let mut i: usize = 0;
                while i < lim
                    invariant
                        lim <= tmp@.len(),
                        lim <= y@.len(),
                        lim <= w@.len(),
                        i <= lim,
                    decreases lim - i,
                {
                    let updated = tmp[i].add(rho.mul(y[i]).add(eta.mul(w[i])));
                    tmp.set(i, updated);
                    i += 1;
                }
                k += 1;
            }

            // Update y (equation 11).
            y.clear();
            y.resize(checked_add(n, 1)?, GF(0));
            let sigma_m_inv = GF(1).div(sigma_m);
            let lim = min_len(y.len(), w.len());
            let mut i: usize = 0;
            while i < lim
                invariant
                    lim <= y@.len(),
                    lim <= w@.len(),
                    i <= lim,
                decreases lim - i,
            {
                y.set(i, w[i].mul(sigma_m_inv));
                i += 1;
            }
            set_value(&mut y, w.len(), sigma_m_inv.neg())?;

            // Compute gamma (equation 10).
            gamma.clear();
            let mut i: usize = 0;
            while i < steps
                invariant
                    i <= steps,
                decreases steps - i,
            {
                let target_index = checked_add(checked_add(checked_add(n, v)?, 1)?, i)?;
                let start = checked_add(v, i)?;
                let end = checked_add(checked_sub(twice_v, 1)?, i)?;
                gamma.push(value(syn, target_index)?.sub(dot(&values_inclusive(syn, start, end)?, &tmp)?));
                i += 1;
            }
            let mut i: usize = 0;
            while i < steps
                invariant
                    i <= steps,
                decreases steps - i,
            {
                let mut j: usize = 0;
                while j < i
                    invariant
                        j <= i,
                    decreases i - j,
                {
                    let gj = value(&gamma, j)?;
                    let sigma_value = value(&sigma, checked_sub(i, j)?)?;
                    let updated = value(&gamma, i)?.sub(sigma_value.mul(gj));
                    set_value(&mut gamma, i, updated)?;
                    j += 1;
                }
                let divisor = value(&sigma, 0)?;
                if divisor.0 == 0 {
                    return Err(ErrorDecodingError::Malfunction);
                }
                let updated = value(&gamma, i)?.div(divisor);
                set_value(&mut gamma, i, updated)?;
                i += 1;
            }

            // Check the triangular system for gamma.
            let mut i: usize = 0;
            while i < steps
                invariant
                    i <= steps,
                decreases steps - i,
            {
                let mut row = GF(0);
                let mut j: usize = 0;
                while j <= i
                    invariant
                        j <= i + 1,
                        i < steps,
                    decreases i + 1 - j,
                {
                    row = row.add(value(&sigma, checked_sub(i, j)?)?.mul(value(&gamma, j)?));
                    j += 1;
                }
                let target_index = checked_add(checked_add(checked_add(n, v)?, 1)?, i)?;
                let start = checked_add(v, i)?;
                let end = checked_add(checked_sub(twice_v, 1)?, i)?;
                let target = value(syn, target_index)?.sub(dot(&values_inclusive(syn, start, end)?, &tmp)?);
                if row != target {
                    return Err(ErrorDecodingError::Malfunction);
                }
                i += 1;
            }

            // Update w, computing the result in tmp first (equation 9).
            // tmp = I_{n+1,v}^0 w^{m+1}_v
            tmp.resize(checked_add(n, 1)?, GF(0));
            let mut i: usize = 0;
            while i < gamma.len()
                invariant
                    i <= gamma@.len(),
                decreases gamma@.len() - i,
            {
                let gamma_i = gamma[i];
                let start = checked_sub(m, i)?;
                if start > tmp.len() {
                    return Err(ErrorDecodingError::Malfunction);
                }
                add_scaled_at(&mut tmp, start, &w, gamma_i);
                let target_index = checked_add(start, v)?;
                let updated = value(&tmp, target_index)?.sub(gamma_i);
                set_value(&mut tmp, target_index, updated)?;
                i += 1;
            }
            core::mem::swap(&mut tmp, &mut w);

            v = checked_add(n, 1)?;
        }

        // Check the invariants of the recursion.
        if w.len() != v || y.len() != v {
            return Err(ErrorDecodingError::Malfunction);
        }
        check_unit_equation(syn, &y, v)?;
        check_locator_equation(syn, &w, v)?;
    }

    w.push(GF(1));
    Ok(w)
}

/// `target[offset + i] = target[offset + i] + factor * source[i]` for the
/// indices that both have.
fn add_scaled_at(target: &mut Vec<GF>, offset: usize, source: &Vec<GF>, factor: GF)
    requires
        offset <= old(target)@.len(),
    ensures
        final(target)@.len() == old(target)@.len(),
{
    let room = target.len() - offset;
    let n = min_len(room, source.len());
    let mut i: usize = 0;
    while i < n
        invariant
            offset + n <= target@.len(),
            target@.len() <= usize::MAX,
            n <= source@.len(),
            target@.len() == old(target)@.len(),
            i <= n,
        decreases n - i,
    {
        let p: usize = offset + i;
        let updated = target[p].add(factor.mul(source[i]));
        target.set(p, updated);
        i += 1;
    }
}

} // verus!
