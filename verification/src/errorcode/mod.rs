//! Reed-Solomon error correction of Data Matrix symbols.
//!
//! The error correction codewords of a block are the remainder of the data
//! polynomial times `x^n` divided by the generator polynomial
//! `(x + x^1)(x + x^2)...(x + x^n)` over GF(256), where `n` is the number of
//! error correction codewords per block. Big symbols split their codewords
//! into several blocks, interleaved: codeword `i` belongs to block `i % blocks`.
use vstd::prelude::*;
use crate::symbol_size::SymbolSize;
use crate::errorcode::galois::{ANTI_LOG, spec_mul};
use crate::errorcode::decoding::syndrome_based::stride_positions;

pub mod galois;
pub mod decoding;

pub use galois::GF;
pub use decoding::{decode as decode_error, ErrorDecodingError};

verus! {

/// Why no error correction codewords could be computed.
#[derive(Debug, Clone, PartialEq, Eq, Structural)]
pub enum ErrorEncodingError {
    /// The number of data codewords does not fit the symbol size.
    DataSize { expected: usize, actual: usize },
}

/// The polynomial `g(x) * (x + r)`, coefficients lowest degree first.
pub open spec fn poly_times_linear(g: Seq<GF>, r: u8) -> Seq<GF> {
    Seq::new(g.len() + 1, |k: int| GF(
        (if k >= 1 { g[k - 1].0 } else { 0 }) ^ (if k < g.len() { spec_mul(g[k].0, r) } else { 0 }),
    ))
}

/// The generator polynomial `(x + x^1)(x + x^2)...(x + x^n)` of the code with
/// `n` error correction codewords, coefficients lowest degree first.
pub open spec fn generator_poly(n: nat) -> Seq<GF>
    decreases n,
{
    if n == 0 {
        seq![GF(1)]
    } else {
        poly_times_linear(generator_poly((n - 1) as nat), ANTI_LOG[(n % 255) as int])
    }
}

/// One step of the division by the generator `g` (lowest degree first): the
/// remainder `e` (highest degree first) after the next data codeword `d`.
pub open spec fn remainder_step(e: Seq<GF>, d: u8, g: Seq<GF>) -> Seq<GF> {
    let f = d ^ e[0].0;
    let n = e.len() as int;
    Seq::new(e.len(), |j: int| GF((if j + 1 < n { e[j + 1].0 } else { 0 }) ^ spec_mul(f, g[n - 1 - j].0)))
}

/// The `n` error correction codewords of `data`: the remainder of
/// `data(x) * x^n` divided by `g`, highest degree first.
pub open spec fn ecc_of(data: Seq<GF>, g: Seq<GF>, n: nat) -> Seq<GF>
    decreases data.len(),
{
    if data.len() == 0 {
        Seq::new(n, |j: int| GF(0))
    } else {
        remainder_step(ecc_of(data.drop_last(), g, n), data.last().0, g)
    }
}

/// The error correction codewords of the interleaved block `block` of the
/// data codewords `data`, out of `blocks` blocks with `n` codewords each.
pub open spec fn block_ecc(data: Seq<u8>, block: int, blocks: int, n: nat) -> Seq<GF> {
    ecc_of(
        stride_positions(block, data.len() as int, blocks).map_values(|p: int| GF(data[p])),
        generator_poly(n),
        n,
    )
}

/// The generator polynomial of degree `n` has `n + 1` coefficients.
pub proof fn lemma_generator_len(n: nat)
    ensures
        generator_poly(n).len() == n + 1,
    decreases n,
{
    if n > 0 {
        lemma_generator_len((n - 1) as nat);
    }
}

/// The remainder has `n` coefficients.
pub proof fn lemma_ecc_len(data: Seq<GF>, g: Seq<GF>, n: nat)
    ensures
        ecc_of(data, g, n).len() == n,
    decreases data.len(),
{
    if data.len() > 0 {
        lemma_ecc_len(data.drop_last(), g, n);
    }
}

/// `g(x) * (x + r)`.
fn times_linear(g: &Vec<GF>, r: GF) -> (p: Vec<GF>)
    requires
        g@.len() < 1000,
    ensures
        p@ == poly_times_linear(g@, r.0),
{
    let n = g.len();
    let mut p: Vec<GF> = Vec::with_capacity(n + 1);
    let mut k: usize = 0;
    while k <= n
        invariant
            n == g@.len(),
            n < 1000,
            k <= n + 1,
            p@.len() == k,
            forall|i: int| 0 <= i < k ==> #[trigger] p@[i] == poly_times_linear(g@, r.0)[i],
        decreases n + 1 - k,
    {
        let high: u8 = if k >= 1 { g[k - 1].0 } else { 0 };
        let low: u8 = if k < n { g[k].mul(r).0 } else { 0 };
        p.push(GF(high ^ low));
        k += 1;
    }
    assert(p@ =~= poly_times_linear(g@, r.0));
    p
}

/// The generator polynomial with `n` error correction codewords.
pub fn generator_polynomial(n: usize) -> (g: Vec<GF>)
    requires
        n < 255,
    ensures
        g@ == generator_poly(n as nat),
{
    let mut g: Vec<GF> = vec![GF(1)];
    assert(g@ =~= generator_poly(0));
    let mut i: usize = 1;
    while i <= n
        invariant
            n < 255,
            1 <= i <= n + 1,
            g@ == generator_poly((i - 1) as nat),
        decreases n + 1 - i,
    {
        proof { lemma_generator_len((i - 1) as nat); }
        g = times_linear(&g, GF::primitive_power(i as u8));
        assert(i % 255 == i);
        i += 1;
    }
    g
}

/// The `n = g.len() - 1` error correction codewords of `data` for the generator `g`.
fn ecc_block(data: &Vec<GF>, g: &Vec<GF>) -> (e: Vec<GF>)
    requires
        g@.len() >= 2,
    ensures
        e@ == ecc_of(data@, g@, (g@.len() - 1) as nat),
{
    let n = g.len() - 1;
    let mut e: Vec<GF> = Vec::with_capacity(n);
    let mut j: usize = 0;
    while j < n
        invariant
            j <= n,
            e@.len() == j,
            forall|k: int| 0 <= k < j ==> #[trigger] e@[k] == GF(0),
        decreases n - j,
    {
        e.push(GF(0));
        j += 1;
    }
    assert(e@ =~= ecc_of(data@.subrange(0, 0), g@, n as nat));
    let mut i: usize = 0;
    while i < data.len()
        invariant
            n == g@.len() - 1,
            n >= 1,
            i <= data@.len(),
            e@ == ecc_of(data@.subrange(0, i as int), g@, n as nat),
        decreases data@.len() - i,
    {
        proof { lemma_ecc_len(data@.subrange(0, i as int), g@, n as nat); }
        let ghost prev = e@;
        let f = data[i].0 ^ e[0].0;
        let mut j: usize = 0;
        while j < n
            invariant
                n == g@.len() - 1,
                e@.len() == n,
                prev.len() == n,
                f == data@[i as int].0 ^ prev[0].0,
                j <= n,
                forall|k: int| 0 <= k < j ==> #[trigger] e@[k] == remainder_step(prev, data@[i as int].0, g@)[k],
                forall|k: int| j <= k < n ==> #[trigger] e@[k] == prev[k],
            decreases n - j,
        {
            let next: u8 = if j + 1 < n { e[j + 1].0 } else { 0 };
            let v = GF(next ^ GF(f).mul(g[n - 1 - j]).0);
            e.set(j, v);
            j += 1;
        }
        proof {
            assert(data@.subrange(0, i + 1).drop_last() =~= data@.subrange(0, i as int));
            assert(e@ =~= remainder_step(prev, data@[i as int].0, g@));
        }
        i += 1;
    }
    assert(data@.subrange(0, data@.len() as int) =~= data@);
    e
}

/// `x == q * d + r` with `r < d` determines `x / d` and `x % d`.
proof fn lemma_interleaved_index(b: int, k: int, d: int)
    requires
        0 <= b < d,
        0 <= k,
    ensures
        (b + k * d) % d == b,
        (b + k * d) / d == k,
{
    vstd::arithmetic::div_mod::lemma_fundamental_div_mod_converse(b + k * d, d, k, b);
}

/// Computes the error correction codewords of the data codewords `data` of a
/// symbol of `size`, interleaved as in the symbol.
pub fn encode_error(data: &[u8], size: SymbolSize) -> (r: Result<Vec<u8>, ErrorEncodingError>)
    ensures
        data@.len() != size.spec_num_data_codewords() ==> r == Err::<Vec<u8>, ErrorEncodingError>(
            ErrorEncodingError::DataSize {
                expected: size.spec_num_data_codewords() as usize,
                actual: data@.len() as usize,
            },
        ),
        data@.len() == size.spec_num_data_codewords() ==> (r matches Ok(e) && ({
            let setup = size.spec_setup();
            let blocks = setup.num_ecc_blocks as int;
            let n = setup.num_ecc_per_block as nat;
            &&& e@.len() == n * blocks
            &&& forall|p: int| 0 <= p < e@.len() ==> #[trigger] e@[p] == block_ecc(data@, p % blocks, blocks, n)[p / blocks].0
        })),
{
    proof { size.lemma_table_consistent(); }
    let setup = size.block_setup();
    let n = setup.num_ecc_per_block;
    let blocks = setup.num_ecc_blocks;
    let num_data = size.num_data_codewords();
    if data.len() != num_data {
        return Err(ErrorEncodingError::DataSize { expected: num_data, actual: data.len() });
    }
    let total: usize = n * blocks;
    let mut out: Vec<u8> = vec![0u8; total];
    let g = generator_polynomial(n);
    let ghost d = data@;
    let mut block: usize = 0;
    while block < blocks
        invariant
            setup == size.spec_setup(),
            n == setup.num_ecc_per_block,
            blocks == setup.num_ecc_blocks,
            5 <= n <= 68,
            1 <= blocks <= 10,
            total == n * blocks,
            data@ == d,
            d.len() == num_data,
            num_data <= 1558,
            g@ == generator_poly(n as nat),
            out@.len() == total,
            block <= blocks,
            forall|p: int| 0 <= p < total && p % (blocks as int) < block ==>
                #[trigger] out@[p] == block_ecc(d, p % (blocks as int), blocks as int, n as nat)[p / (blocks as int)].0,
        decreases blocks - block,
    {
        let mut received: Vec<GF> = Vec::new();
        let mut p: usize = block;
        while p < num_data
            invariant
                blocks >= 1,
                num_data == d.len(),
                num_data <= 1558,
                data@ == d,
                blocks <= 10,
                received@ + stride_positions(p as int, num_data as int, blocks as int).map_values(|q: int| GF(d[q]))
                    == stride_positions(block as int, num_data as int, blocks as int).map_values(|q: int| GF(d[q])),
            decreases (if p < num_data { num_data - p } else { 0 }),
        {
            let ghost before = received@;
            let ghost rest = stride_positions(p + blocks, num_data as int, blocks as int);
            received.push(GF(data[p]));
            proof {
                assert(stride_positions(p as int, num_data as int, blocks as int) == seq![p as int] + rest);
                assert(received@ + rest.map_values(|q: int| GF(d[q])) =~= before + (seq![p as int] + rest).map_values(
                    |q: int| GF(d[q]),
                ));
            }
            p = p + blocks;
        }
        assert(received@ =~= stride_positions(block as int, num_data as int, blocks as int).map_values(|q: int| GF(d[q])));
        proof {
            lemma_generator_len(n as nat);
            assert(received@ =~= stride_positions(block as int, d.len() as int, blocks as int).map_values(|q: int| GF(d[q])));
        }
        let e = ecc_block(&received, &g);
        proof { lemma_ecc_len(received@, g@, n as nat); }
        let mut k: usize = 0;
        while k < n
            invariant
                n == setup.num_ecc_per_block,
                5 <= n <= 68,
                1 <= blocks <= 10,
                total == n * blocks,
                block < blocks,
                out@.len() == total,
                e@ == block_ecc(d, block as int, blocks as int, n as nat),
                e@.len() == n,
                k <= n,
                forall|p: int| 0 <= p < total && (p % (blocks as int) < block
                    || (p % (blocks as int) == block && p / (blocks as int) < k)) ==>
                    #[trigger] out@[p] == block_ecc(d, p % (blocks as int), blocks as int, n as nat)[p / (blocks as int)].0,
            decreases n - k,
        {
            proof {
                lemma_interleaved_index(block as int, k as int, blocks as int);
                assert(block + k * blocks < total) by (nonlinear_arith)
                    requires block < blocks, k < n, total == n * blocks;
            }
            let pos: usize = block + k * blocks;
            let ghost prev = out@;
            out.set(pos, e[k].0);
            proof {
                assert forall|p: int| 0 <= p < total && (p % (blocks as int) < block
                    || (p % (blocks as int) == block && p / (blocks as int) < k + 1)) implies
                    #[trigger] out@[p] == block_ecc(d, p % (blocks as int), blocks as int, n as nat)[p / (blocks as int)].0 by {
                    if p != pos {
                        assert(out@[p] == prev[p]);
                        if p % (blocks as int) == block && p / (blocks as int) == k {
                            vstd::arithmetic::div_mod::lemma_fundamental_div_mod(p, blocks as int);
                            assert(p == block + k * blocks) by (nonlinear_arith)
                                requires p == (blocks as int) * (p / (blocks as int)) + p % (blocks as int),
                                    p % (blocks as int) == block, p / (blocks as int) == k;
                        }
                    }
                }
            }
            k += 1;
        }
        proof {
            assert forall|p: int| 0 <= p < total && p % (blocks as int) < block + 1 implies
                #[trigger] out@[p] == block_ecc(d, p % (blocks as int), blocks as int, n as nat)[p / (blocks as int)].0 by {
                if p % (blocks as int) == block {
                    vstd::arithmetic::div_mod::lemma_fundamental_div_mod(p, blocks as int);
                    assert(p / (blocks as int) < n as int) by (nonlinear_arith)
                        requires p < total, total == n * blocks, blocks >= 1, p >= 0,
                            p == (blocks as int) * (p / (blocks as int)) + p % (blocks as int),
                            p % (blocks as int) >= 0;
                }
            }
        }
        block += 1;
    }
    Ok(out)
}

} // verus!
