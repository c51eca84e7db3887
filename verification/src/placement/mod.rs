//! Placement of the bits in a Data Matrix symbol.
//!
//! [MatrixMap] holds the modules of a symbol without its finder and alignment
//! patterns and knows where the bits of each codeword go; in other words it
//! relates the black squares to the encoded bytes. It is used to write the
//! encoded data into a bitmap and to read it back.
//!
//! The abstract bitmap [Bitmap] is the final output of encoding and the input
//! of decoding, with helpers for rendering.
use vstd::prelude::*;
use crate::symbol_size::{SymbolList, SymbolSize, spec_all_sizes, BlockSetup};
use crate::decodation::eci::string_push;

pub mod path;

pub use path::PathSegment;



verus! {

/// Failure to read a symbol from a bitmap, or to build one.
#[derive(Debug, Clone, PartialEq, Eq)]
pub enum BitmapConversionError {
    /// The alignment pattern is invalid.
    Alignment,
    /// The padding pattern is invalid.
    Padding,
    /// The width is zero.
    ZeroWidth,
    /// The data does not fit the given width.
    DataSize,
    /// No symbol size has the dimensions of the data.
    SymbolSize,
    /// The number of codewords does not match the symbol size.
    CodewordCount { expected: usize, actual: usize },
    /// A size computation exceeded the limits of the target architecture.
    ArithmeticOverflow,
    /// An internal consistency check failed.
    InternalError(&'static str),
}

/// The modules of a Data Matrix symbol without its alignment patterns, row by row.
#[derive(Debug, Clone)]
pub struct MatrixMap {
    entries: Vec<bool>,
    width: usize,
    height: usize,
    extra_vertical_alignments: usize,
    extra_horizontal_alignments: usize,
    has_padding: bool,
}

/// Whether the module at `(row, column)` of the matrix of `size` is one of
/// the four modules left over in some sizes, and which value the fixed
/// pattern gives it.
pub open spec fn content_len(setup: BlockSetup) -> int {
    setup.spec_content_width() * setup.spec_content_height()
}

/// The row (or column) of the symbol that holds row (or column) `x` of the
/// mapping matrix, when the data regions are `block` modules high (or wide):
/// each region has a finder or alignment pattern on both sides.
pub open spec fn region_line(x: int, block: int) -> int {
    x + 1 + 2 * (x / block)
}

/// The index in the symbol, row by row, of module `k` of the mapping matrix
/// of a symbol with the setup `s`.
pub open spec fn content_module_index(k: int, s: BlockSetup) -> int {
    let cw = s.spec_content_width();
    let bw = cw / (s.extra_vertical_alignments as int + 1);
    let bh = s.spec_content_height() / (s.extra_horizontal_alignments as int + 1);
    region_line(k / cw, bh) * s.width + region_line(k % cw, bw)
}

/// The module in row `r` and column `c` of the symbol with the setup `s`
/// whose mapping matrix holds `entries`. Each data region has a solid dark
/// row below it and a row above it that alternates from dark at column 0;
/// to its left a solid dark column, to its right a column that is dark in
/// the odd rows. The regions hold the mapping matrix, region by region.
pub open spec fn symbol_module(entries: Seq<bool>, s: BlockSetup, r: int, c: int) -> bool {
    let cw = s.spec_content_width();
    let bw = cw / (s.extra_vertical_alignments as int + 1);
    let bh = s.spec_content_height() / (s.extra_horizontal_alignments as int + 1);
    let rr = r % (bh + 2);
    let cc = c % (bw + 2);
    if rr == bh + 1 {
        true
    } else if rr == 0 {
        c % 2 == 0
    } else if cc == 0 {
        true
    } else if cc == bw + 1 {
        r % 2 == 1
    } else {
        entries[((r / (bh + 2)) * bh + rr - 1) * cw + (c / (bw + 2)) * bw + cc - 1]
    }
}

/// `b` is the bitmap of the symbol that holds the modules of `m`: for each
/// symbol size that `m` fits, it has the dimensions of the symbol, its
/// modules are [symbol_module] of the entries of `m`, and module `k` of `m`
/// stands at [content_module_index].
pub open spec fn bitmap_shows(b: Bitmap, m: MatrixMap) -> bool {
    &&& b.wf()
    &&& forall|s: SymbolSize, k: int| #![trigger m.fits(s), b.spec_bits()[k]] m.fits(s) && 0 <= k < b.spec_bits().len()
        ==> b.spec_bits()[k] == symbol_module(m.spec_entries(), s.spec_setup(), k / b.spec_width(), k % b.spec_width())
    &&& forall|s: SymbolSize| m.fits(s) ==> b.spec_width() == #[trigger] s.spec_setup().width
        && b.spec_height() == s.spec_setup().height
    &&& forall|s: SymbolSize, k: int| m.fits(s) && 0 <= k < m.spec_entries().len() ==> #[trigger] b.spec_bits()[
        content_module_index(k, s.spec_setup())] == m.spec_entries()[k]
}

/// What reading `bits`, `width` modules per row, may give: a matrix of a
/// symbol size with these dimensions whose modules are those inside the regions.
pub open spec fn read_matches(
    bits: Seq<bool>,
    width: int,
    r: Result<(MatrixMap, SymbolSize), BitmapConversionError>,
) -> bool {
    r matches Ok((m, size)) ==> {
        &&& m.fits(size)
        &&& m.wf()
        &&& size.spec_setup().width == width
        &&& size.spec_setup().height == (bits.len() as int) / width
        &&& forall|q: int| 0 <= q < m.spec_entries().len() ==> #[trigger] m.spec_entries()[q]
            == bits[content_module_index(q, size.spec_setup())]
    }
}

/// Module `k`, row by row, of the symbol with the setup `s` whose mapping
/// matrix holds `entries`.
pub open spec fn module_at(entries: Seq<bool>, s: BlockSetup, k: int) -> bool {
    symbol_module(entries, s, k / (s.width as int), k % (s.width as int))
}

/// Whether the module in row `r` and column `c` of a symbol with the setup
/// `s` lies inside a data region.
pub open spec fn is_data_module(s: BlockSetup, r: int, c: int) -> bool {
    let bw = s.spec_content_width() / (s.extra_vertical_alignments as int + 1);
    let bh = s.spec_content_height() / (s.extra_horizontal_alignments as int + 1);
    &&& 1 <= r % (bh + 2) <= bh
    &&& 1 <= c % (bw + 2) <= bw
}

/// Whether module `k`, row by row, lies inside a data region.
pub open spec fn data_at(s: BlockSetup, k: int) -> bool {
    is_data_module(s, k / (s.width as int), k % (s.width as int))
}

/// Whether `bits`, rows of `s.width` modules, are the symbol with the setup
/// `s` whose mapping matrix holds `entries`.
pub open spec fn is_symbol_of(bits: Seq<bool>, entries: Seq<bool>, s: BlockSetup) -> bool {
    &&& bits.len() == s.width * s.height
    &&& entries.len() == content_len(s)
    &&& forall|k: int| 0 <= k < bits.len() ==> #[trigger] bits[k] == module_at(entries, s, k)
}

/// The modules `lo..hi` of `bits` outside the data regions are those of the
/// finder and alignment patterns of a symbol with the setup `s`.
pub open spec fn patterns_hold(bits: Seq<bool>, s: BlockSetup, lo: int, hi: int) -> bool {
    forall|k: int| lo <= k < hi && !data_at(s, k) ==> #[trigger] bits[k] == module_at(Seq::<bool>::empty(), s, k)
}

/// The fixed pattern of the four modules that some sizes leave over in the
/// bottom right corner of the mapping matrix: light, dark above dark, light.
pub open spec fn padding_pattern(entries: Seq<bool>, s: BlockSetup) -> bool {
    let n = entries.len() as int;
    let w = s.spec_content_width();
    content_len(s) % 8 != 0 ==> (!entries[n - 2] && entries[n - 1] && entries[n - w - 2] && !entries[n - w - 1])
}

/// Reading `bits`, `width` modules per row, succeeds on every symbol of a
/// size of that width whose leftover modules hold their fixed pattern.
pub open spec fn accepts_symbols(
    bits: Seq<bool>,
    width: int,
    r: Result<(MatrixMap, SymbolSize), BitmapConversionError>,
) -> bool {
    forall|size: SymbolSize, entries: Seq<bool>| #[trigger] is_symbol_of(bits, entries, size.spec_setup())
        && size.spec_setup().width == width && padding_pattern(entries, size.spec_setup()) ==> r is Ok
}

/// Lines of the mapping matrix keep their order in the symbol, and stay inside it.
proof fn lemma_region_line(x: int, y: int, block: int, n: int)
    requires
        0 <= x < y < n * block,
        block > 0,
        n > 0,
    ensures
        region_line(x, block) < region_line(y, block),
        0 <= region_line(x, block),
        region_line(y, block) < n * block + 2 * n,
{
    vstd::arithmetic::div_mod::lemma_div_is_ordered(x, y, block);
    vstd::arithmetic::div_mod::lemma_div_pos_is_pos(x, block);
    assert(y / block < n) by {
        crate::lemma_split_index(y, block);
        assert(y / block < n) by (nonlinear_arith)
            requires
                y == (y / block) * block + y % block,
                0 <= y % block,
                y < n * block,
                block > 0,
        ;
    }
}

/// The regions of a setup divide the mapping matrix evenly.
proof fn lemma_blocks(s: BlockSetup)
    requires
        s.wf(),
    ensures
        (s.spec_content_width() / (s.extra_vertical_alignments as int + 1)) * (s.extra_vertical_alignments as int
            + 1) == s.spec_content_width(),
        (s.spec_content_height() / (s.extra_horizontal_alignments as int + 1)) * (s.extra_horizontal_alignments
            as int + 1) == s.spec_content_height(),
        s.spec_content_width() / (s.extra_vertical_alignments as int + 1) > 0,
        s.spec_content_height() / (s.extra_horizontal_alignments as int + 1) > 0,
        content_len(s) >= 36,
{
    let cw = s.spec_content_width();
    let ch = s.spec_content_height();
    let nv = s.extra_vertical_alignments as int + 1;
    let nh = s.extra_horizontal_alignments as int + 1;
    let bw = cw / nv;
    let bh = ch / nh;
    vstd::arithmetic::div_mod::lemma_fundamental_div_mod(cw, nv);
    vstd::arithmetic::div_mod::lemma_fundamental_div_mod(ch, nh);
    assert(bw * nv == cw && bh * nh == ch) by (nonlinear_arith)
        requires
            cw == nv * bw + cw % nv,
            cw % nv == 0,
            ch == nh * bh + ch % nh,
            ch % nh == 0,
    ;
    assert(bw > 0 && bh > 0) by (nonlinear_arith)
        requires
            bw * nv == cw,
            bh * nh == ch,
            cw >= 6,
            ch >= 6,
            nv > 0,
            nh > 0,
    ;
    assert(cw * ch >= 36) by (nonlinear_arith)
        requires
            cw >= 6,
            ch >= 6,
    ;
}

/// A module of the mapping matrix lies inside the symbol.
proof fn lemma_content_module_in(k: int, s: BlockSetup)
    requires
        s.wf(),
        0 <= k < content_len(s),
    ensures
        0 <= region_line(k / s.spec_content_width(), s.spec_content_height() / (
            s.extra_horizontal_alignments as int + 1)) < s.height,
        0 <= region_line(k % s.spec_content_width(), s.spec_content_width() / (
            s.extra_vertical_alignments as int + 1)) < s.width,
        0 <= content_module_index(k, s) < s.width * s.height,
{
    let cw = s.spec_content_width();
    let ch = s.spec_content_height();
    let nv = s.extra_vertical_alignments as int + 1;
    let nh = s.extra_horizontal_alignments as int + 1;
    let bw = cw / nv;
    let bh = ch / nh;
    lemma_blocks(s);
    crate::lemma_split_index(k, cw);
    let (r, c) = (k / cw, k % cw);
    assert(r < ch) by (nonlinear_arith)
        requires
            k == r * cw + c,
            0 <= c,
            k < cw * ch,
            cw > 0,
    ;
    assert(bw * nv == nv * bw && bh * nh == nh * bh) by (nonlinear_arith);
    if c < cw - 1 {
        lemma_region_line(c, cw - 1, bw, nv);
    } else {
        lemma_region_line(0, c, bw, nv);
    }
    if r < ch - 1 {
        lemma_region_line(r, ch - 1, bh, nh);
    } else {
        lemma_region_line(0, r, bh, nh);
    }
    let (x, y) = (region_line(c, bw), region_line(r, bh));
    let (w, h) = (s.width as int, s.height as int);
    assert(0 <= y * w + x < w * h) by (nonlinear_arith)
        requires
            0 <= y < h,
            0 <= x < w,
    ;
}

/// A line inside a region is a line of the mapping matrix.
proof fn lemma_region_coordinate(x: int, block: int, n: int)
    requires
        block > 0,
        n > 0,
        0 <= x < n * (block + 2),
        1 <= x % (block + 2) <= block,
    ensures
        0 <= (x / (block + 2)) * block + x % (block + 2) - 1 < n * block,
{
    crate::lemma_split_index(x, block + 2);
    let (q, m) = (x / (block + 2), x % (block + 2));
    assert(q < n) by (nonlinear_arith)
        requires
            x == q * (block + 2) + m,
            0 <= m,
            x < n * (block + 2),
            block + 2 > 0,
    ;
    assert(0 <= q * block + m - 1 < n * block) by (nonlinear_arith)
        requires
            0 <= q < n,
            1 <= m <= block,
    ;
}

/// The module of the mapping matrix that stands at a module inside a region
/// of the symbol exists.
proof fn lemma_region_content_index(s: BlockSetup, r: int, c: int)
    requires
        s.wf(),
        0 <= r < s.height,
        0 <= c < s.width,
        1 <= r % (s.spec_content_height() / (s.extra_horizontal_alignments as int + 1) + 2) <= s.spec_content_height()
            / (s.extra_horizontal_alignments as int + 1),
        1 <= c % (s.spec_content_width() / (s.extra_vertical_alignments as int + 1) + 2) <= s.spec_content_width() / (
            s.extra_vertical_alignments as int + 1),
    ensures
        ({
            let cw = s.spec_content_width();
            let ch = s.spec_content_height();
            let bw = cw / (s.extra_vertical_alignments as int + 1);
            let bh = ch / (s.extra_horizontal_alignments as int + 1);
            let row = (r / (bh + 2)) * bh + r % (bh + 2) - 1;
            let col = (c / (bw + 2)) * bw + c % (bw + 2) - 1;
            &&& 0 <= row < ch
            &&& 0 <= col < cw
            &&& 0 <= row * cw <= row * cw + col < cw * ch
            &&& (r / (bh + 2)) * bh <= r
            &&& (c / (bw + 2)) * bw <= c
        }),
{
    let cw = s.spec_content_width();
    let ch = s.spec_content_height();
    let nv = s.extra_vertical_alignments as int + 1;
    let nh = s.extra_horizontal_alignments as int + 1;
    let bw = cw / nv;
    let bh = ch / nh;
    lemma_blocks(s);
    assert(s.height == nh * (bh + 2)) by (nonlinear_arith)
        requires
            s.height == ch + 2 * nh,
            bh * nh == ch,
    ;
    assert(s.width == nv * (bw + 2)) by (nonlinear_arith)
        requires
            s.width == cw + 2 * nv,
            bw * nv == cw,
    ;
    lemma_region_coordinate(r, bh, nh);
    lemma_region_coordinate(c, bw, nv);
    assert(nh * bh == ch && nv * bw == cw) by (nonlinear_arith)
        requires
            bh * nh == ch,
            bw * nv == cw,
    ;
    let row = (r / (bh + 2)) * bh + r % (bh + 2) - 1;
    let col = (c / (bw + 2)) * bw + c % (bw + 2) - 1;
    assert(0 <= row * cw <= row * cw + col < cw * ch) by (nonlinear_arith)
        requires
            0 <= row < ch,
            0 <= col < cw,
    ;
    crate::lemma_split_index(r, bh + 2);
    crate::lemma_split_index(c, bw + 2);
    assert((r / (bh + 2)) * bh <= r) by (nonlinear_arith)
        requires
            r == (r / (bh + 2)) * (bh + 2) + r % (bh + 2),
            r / (bh + 2) >= 0,
            r % (bh + 2) >= 0,
    ;
    assert((c / (bw + 2)) * bw <= c) by (nonlinear_arith)
        requires
            c == (c / (bw + 2)) * (bw + 2) + c % (bw + 2),
            c / (bw + 2) >= 0,
            c % (bw + 2) >= 0,
    ;
}

/// A line of the mapping matrix, in the symbol, is inside its region.
proof fn lemma_region_line_split(x: int, block: int)
    requires
        block > 0,
        0 <= x,
    ensures
        region_line(x, block) / (block + 2) == x / block,
        region_line(x, block) % (block + 2) == x % block + 1,
{
    crate::lemma_split_index(x, block);
    let (q, m) = (x / block, x % block);
    assert(region_line(x, block) == q * (block + 2) + (m + 1)) by (nonlinear_arith)
        requires
            x == q * block + m,
            region_line(x, block) == x + 1 + 2 * q,
    ;
    crate::lemma_split_index(region_line(x, block), block + 2);
    crate::lemma_row_major_unique(region_line(x, block) / (block + 2), region_line(x, block) % (block + 2), q, m + 1,
        block + 2);
}

/// The module of the symbol at [content_module_index] of `k` is module `k`.
proof fn lemma_data_position(k: int, s: BlockSetup)
    requires
        s.wf(),
        0 <= k < content_len(s),
    ensures
        forall|entries: Seq<bool>| #[trigger] symbol_module(entries, s, content_module_index(k, s) / (s.width as int),
            content_module_index(k, s) % (s.width as int)) == entries[k],
{
    let cw = s.spec_content_width();
    let nv = s.extra_vertical_alignments as int + 1;
    let nh = s.extra_horizontal_alignments as int + 1;
    let bw = cw / nv;
    let bh = s.spec_content_height() / nh;
    lemma_blocks(s);
    lemma_content_module_in(k, s);
    crate::lemma_split_index(k, cw);
    let (row, col) = (k / cw, k % cw);
    let (rl, cl) = (region_line(row, bh), region_line(col, bw));
    let w = s.width as int;
    let idx = content_module_index(k, s);
    assert(idx == rl * w + cl);
    crate::lemma_split_index(idx, w);
    crate::lemma_row_major_unique(idx / w, idx % w, rl, cl, w);
    lemma_region_line_split(row, bh);
    lemma_region_line_split(col, bw);
    crate::lemma_split_index(row, bh);
    crate::lemma_split_index(col, bw);
    assert(((rl / (bh + 2)) * bh + rl % (bh + 2) - 1) * cw + (cl / (bw + 2)) * bw + cl % (bw + 2) - 1 == k);
    assert(rl % (bh + 2) != bh + 1 && rl % (bh + 2) != 0);
    assert(cl % (bw + 2) != 0 && cl % (bw + 2) != bw + 1);
}

/// The row above a band of regions alternates from dark at column 0, the
/// row below it is dark throughout.
proof fn lemma_band_coords(s: BlockSetup, q: int, e: Seq<bool>)
    requires
        s.wf(),
        0 <= q < s.extra_horizontal_alignments + 1,
    ensures
        ({
            let bh = s.spec_content_height() / (s.extra_horizontal_alignments as int + 1);
            let w = s.width as int;
            let start = q * ((bh + 2) * w);
            &&& 0 <= start
            &&& start + (bh + 2) * w <= w * s.height
            &&& forall|k: int| start <= k < start + w ==> #[trigger] module_at(e, s, k) == ((k - start) % 2 == 0)
                && !data_at(s, k)
            &&& forall|k: int| start + (bh + 1) * w <= k < start + (bh + 2) * w ==> #[trigger] module_at(e, s, k)
                && !data_at(s, k)
        }),
{
    let nh = s.extra_horizontal_alignments as int + 1;
    let bh = s.spec_content_height() / nh;
    let w = s.width as int;
    let start = q * ((bh + 2) * w);
    lemma_blocks(s);
    assert(s.height == nh * (bh + 2)) by (nonlinear_arith)
        requires
            s.height == s.spec_content_height() + 2 * nh,
            bh * nh == s.spec_content_height(),
    ;
    assert(start + (bh + 2) * w <= w * s.height) by (nonlinear_arith)
        requires
            start == q * ((bh + 2) * w),
            0 <= q < nh,
            s.height == nh * (bh + 2),
            w >= 0,
    ;
    assert(start == (q * (bh + 2)) * w) by (nonlinear_arith)
        requires
            start == q * ((bh + 2) * w),
    ;
    assert(0 <= q * (bh + 2)) by (nonlinear_arith)
        requires
            0 <= q,
            0 <= bh,
    ;
    assert(0 <= start && start + w <= start + (bh + 1) * w && start + (bh + 1) * w <= start + (bh + 2) * w)
        by (nonlinear_arith)
        requires
            start == (q * (bh + 2)) * w,
            0 <= q * (bh + 2),
            w >= 0,
            bh >= 0,
    ;
    assert forall|k: int| start <= k < start + w implies #[trigger] module_at(e, s, k) == ((k - start) % 2 == 0)
        && !data_at(s, k) by {
        crate::lemma_split_index(k, w);
        crate::lemma_row_major_unique(k / w, k % w, q * (bh + 2), k - start, w);
        vstd::arithmetic::div_mod::lemma_mod_multiples_basic(q, bh + 2);
        assert((q * (bh + 2)) % (bh + 2) == 0) by {
            assert(q * (bh + 2) == (bh + 2) * q) by (nonlinear_arith);
        }
    }
    assert forall|k: int| start + (bh + 1) * w <= k < start + (bh + 2) * w implies #[trigger] module_at(e, s, k)
        && !data_at(s, k) by {
        let row = q * (bh + 2) + bh + 1;
        assert(start + (bh + 1) * w == row * w) by (nonlinear_arith)
            requires
                start == (q * (bh + 2)) * w,
                row == q * (bh + 2) + bh + 1,
        ;
        assert(start + (bh + 2) * w == row * w + w) by (nonlinear_arith)
            requires
                start == (q * (bh + 2)) * w,
                row == q * (bh + 2) + bh + 1,
        ;
        crate::lemma_split_index(k, w);
        crate::lemma_row_major_unique(k / w, k % w, row, k - row * w, w);
        crate::lemma_split_index(row, bh + 2);
        crate::lemma_row_major_unique(row / (bh + 2), row % (bh + 2), q, bh + 1, bh + 2);
    }
}

/// The module before and after slice `j` of the rows of band `q`: the left
/// one is dark, the right one dark in the odd rows; those between them are
/// inside a data region.
proof fn lemma_slice_coords(s: BlockSetup, q: int, j: int, e: Seq<bool>)
    requires
        s.wf(),
        0 <= q < s.extra_horizontal_alignments + 1,
        0 <= j < (s.spec_content_height() / (s.extra_horizontal_alignments as int + 1)) * (
            s.extra_vertical_alignments as int + 1),
        (s.spec_content_height() / (s.extra_horizontal_alignments as int + 1)) % 2 == 0,
    ensures
        ({
            let bh = s.spec_content_height() / (s.extra_horizontal_alignments as int + 1);
            let bw = s.spec_content_width() / (s.extra_vertical_alignments as int + 1);
            let w = s.width as int;
            let row = q * ((bh + 2) * w) + w + j * (bw + 2);
            &&& 0 <= row
            &&& row + bw + 1 < w * s.height
            &&& module_at(e, s, row) && !data_at(s, row)
            &&& module_at(e, s, row + bw + 1) == ((j / (s.extra_vertical_alignments as int + 1)) % 2 == 0)
            &&& !data_at(s, row + bw + 1)
            &&& forall|t: int| 1 <= t <= bw ==> #[trigger] data_at(s, row + t)
        }),
{
    let nv = s.extra_vertical_alignments as int + 1;
    let nh = s.extra_horizontal_alignments as int + 1;
    let bw = s.spec_content_width() / nv;
    let bh = s.spec_content_height() / nh;
    let w = s.width as int;
    lemma_blocks(s);
    assert(w == nv * (bw + 2)) by (nonlinear_arith)
        requires
            w == s.spec_content_width() + 2 * nv,
            bw * nv == s.spec_content_width(),
    ;
    assert(s.height == nh * (bh + 2)) by (nonlinear_arith)
        requires
            s.height == s.spec_content_height() + 2 * nh,
            bh * nh == s.spec_content_height(),
    ;
    crate::lemma_split_index(j, nv);
    let (jr, jc) = (j / nv, j % nv);
    assert(jr < bh) by (nonlinear_arith)
        requires
            j == jr * nv + jc,
            0 <= jc,
            j < bh * nv,
            nv > 0,
    ;
    let big = q * (bh + 2) + 1 + jr;
    let row = q * ((bh + 2) * w) + w + j * (bw + 2);
    assert(j * (bw + 2) == jr * w + jc * (bw + 2)) by (nonlinear_arith)
        requires
            j == jr * nv + jc,
            w == nv * (bw + 2),
    ;
    assert(big * w == q * ((bh + 2) * w) + w + jr * w) by (nonlinear_arith)
        requires
            big == q * (bh + 2) + 1 + jr,
    ;
    assert(row == big * w + jc * (bw + 2));
    assert(jc * (bw + 2) + bw + 1 < w) by (nonlinear_arith)
        requires
            0 <= jc < nv,
            w == nv * (bw + 2),
            bw >= 0,
    ;
    assert(0 <= jc * (bw + 2)) by (nonlinear_arith)
        requires
            0 <= jc,
            0 <= bw,
    ;
    assert(big < s.height) by (nonlinear_arith)
        requires
            big == q * (bh + 2) + 1 + jr,
            0 <= q < nh,
            0 <= jr < bh,
            s.height == nh * (bh + 2),
    ;
    assert(big * w + w <= w * s.height) by (nonlinear_arith)
        requires
            0 <= big < s.height,
            0 <= w,
    ;
    assert(0 <= big * w) by (nonlinear_arith)
        requires
            0 <= big,
            0 <= w,
    ;
    let c0 = jc * (bw + 2);
    let c1 = c0 + bw + 1;
    crate::lemma_split_index(row, w);
    crate::lemma_row_major_unique(row / w, row % w, big, c0, w);
    crate::lemma_split_index(row + bw + 1, w);
    crate::lemma_row_major_unique((row + bw + 1) / w, (row + bw + 1) % w, big, c1, w);
    crate::lemma_split_index(big, bh + 2);
    crate::lemma_row_major_unique(big / (bh + 2), big % (bh + 2), q, 1 + jr, bh + 2);
    crate::lemma_split_index(c0, bw + 2);
    crate::lemma_row_major_unique(c0 / (bw + 2), c0 % (bw + 2), jc, 0, bw + 2);
    crate::lemma_split_index(c1, bw + 2);
    crate::lemma_row_major_unique(c1 / (bw + 2), c1 % (bw + 2), jc, bw + 1, bw + 2);
    // The parity of the row is that of 1 + jr, as the bands have an even number of rows.
    let half = (bh + 2) / 2;
    crate::lemma_split_index(bh + 2, 2);
    assert(big == 2 * (q * half) + 1 + jr) by (nonlinear_arith)
        requires
            big == q * (bh + 2) + 1 + jr,
            bh + 2 == (bh + 2) / 2 * 2 + (bh + 2) % 2,
            (bh + 2) % 2 == 0,
            half == (bh + 2) / 2,
    ;
    crate::lemma_split_index(1 + jr, 2);
    crate::lemma_split_index(big, 2);
    crate::lemma_row_major_unique(big / 2, big % 2, q * half + (1 + jr) / 2, (1 + jr) % 2, 2);
    assert forall|t: int| 1 <= t <= bw implies #[trigger] data_at(s, row + t) by {
        let ct = c0 + t;
        crate::lemma_split_index(row + t, w);
        crate::lemma_row_major_unique((row + t) / w, (row + t) % w, big, ct, w);
        crate::lemma_split_index(ct, bw + 2);
        crate::lemma_row_major_unique(ct / (bw + 2), ct % (bw + 2), jc, t, bw + 2);
    }
}

/// A module inside a data region of the symbol is module `k` of the mapping
/// matrix for the `k` that [content_module_index] places there.
proof fn lemma_region_inverse(s: BlockSetup, k: int)
    requires
        s.wf(),
        0 <= k < s.width * s.height,
        data_at(s, k),
    ensures
        ({
            let w = s.width as int;
            let cw = s.spec_content_width();
            let bw = cw / (s.extra_vertical_alignments as int + 1);
            let bh = s.spec_content_height() / (s.extra_horizontal_alignments as int + 1);
            let (r, c) = (k / w, k % w);
            let ci = ((r / (bh + 2)) * bh + r % (bh + 2) - 1) * cw + (c / (bw + 2)) * bw + c % (bw + 2) - 1;
            &&& 0 <= ci < content_len(s)
            &&& content_module_index(ci, s) == k
        }),
{
    let w = s.width as int;
    let cw = s.spec_content_width();
    let nv = s.extra_vertical_alignments as int + 1;
    let nh = s.extra_horizontal_alignments as int + 1;
    let bw = cw / nv;
    let bh = s.spec_content_height() / nh;
    lemma_blocks(s);
    crate::lemma_split_index(k, w);
    let (r, c) = (k / w, k % w);
    assert(r < s.height) by (nonlinear_arith)
        requires
            k == r * w + c,
            0 <= c,
            k < w * s.height,
            w > 0,
    ;
    lemma_region_content_index(s, r, c);
    let row = (r / (bh + 2)) * bh + r % (bh + 2) - 1;
    let col = (c / (bw + 2)) * bw + c % (bw + 2) - 1;
    let ci = row * cw + col;
    crate::lemma_split_index(ci, cw);
    crate::lemma_row_major_unique(ci / cw, ci % cw, row, col, cw);
    crate::lemma_split_index(r, bh + 2);
    crate::lemma_split_index(c, bw + 2);
    crate::lemma_split_index(row, bh);
    crate::lemma_row_major_unique(row / bh, row % bh, r / (bh + 2), r % (bh + 2) - 1, bh);
    crate::lemma_split_index(col, bw);
    crate::lemma_row_major_unique(col / bw, col % bw, c / (bw + 2), c % (bw + 2) - 1, bw);
    assert(region_line(row, bh) == r) by (nonlinear_arith)
        requires
            region_line(row, bh) == row + 1 + 2 * (row / bh),
            row == (r / (bh + 2)) * bh + r % (bh + 2) - 1,
            row / bh == r / (bh + 2),
            r == (r / (bh + 2)) * (bh + 2) + r % (bh + 2),
    ;
    assert(region_line(col, bw) == c) by (nonlinear_arith)
        requires
            region_line(col, bw) == col + 1 + 2 * (col / bw),
            col == (c / (bw + 2)) * bw + c % (bw + 2) - 1,
            col / bw == c / (bw + 2),
            c == (c / (bw + 2)) * (bw + 2) + c % (bw + 2),
    ;
}

/// Where the reader of a bitmap finds module `k` of the mapping matrix: in
/// band `q` of regions (each `bh + 2` rows with its patterns), at slice `j`
/// of its rows (each `bw + 2` modules with its patterns), offset `t`.
proof fn lemma_read_position(q: int, j: int, t: int, s: BlockSetup)
    requires
        s.wf(),
        0 <= q < s.extra_horizontal_alignments + 1,
        0 <= j < (s.spec_content_height() / (s.extra_horizontal_alignments as int + 1)) * (
            s.extra_vertical_alignments as int + 1),
        0 <= t < s.spec_content_width() / (s.extra_vertical_alignments as int + 1),
    ensures
        ({
            let bw = s.spec_content_width() / (s.extra_vertical_alignments as int + 1);
            let bh = s.spec_content_height() / (s.extra_horizontal_alignments as int + 1);
            let k = q * bh * s.spec_content_width() + j * bw + t;
            &&& 0 <= k < content_len(s)
            &&& content_module_index(k, s) == (q * (bh + 2) + 1) * s.width + j * (bw + 2) + 1 + t
        }),
{
    let cw = s.spec_content_width();
    let ch = s.spec_content_height();
    let nv = s.extra_vertical_alignments as int + 1;
    let nh = s.extra_horizontal_alignments as int + 1;
    let bw = cw / nv;
    let bh = ch / nh;
    let w = s.width as int;
    lemma_blocks(s);
    crate::lemma_split_index(j, nv);
    let (jr, jc) = (j / nv, j % nv);
    assert(jr < bh) by (nonlinear_arith)
        requires
            j == jr * nv + jc,
            0 <= jc,
            j < bh * nv,
            nv > 0,
    ;
    let k = q * bh * cw + j * bw + t;
    let row = q * bh + jr;
    let col = jc * bw + t;
    assert(col < cw) by (nonlinear_arith)
        requires
            col == jc * bw + t,
            0 <= jc < nv,
            0 <= t < bw,
            bw * nv == cw,
    ;
    assert(k == row * cw + col) by (nonlinear_arith)
        requires
            k == q * bh * cw + j * bw + t,
            j == jr * nv + jc,
            row == q * bh + jr,
            col == jc * bw + t,
            bw * nv == cw,
    ;
    assert(0 <= row < ch) by (nonlinear_arith)
        requires
            row == q * bh + jr,
            0 <= q < nh,
            0 <= jr < bh,
            bh * nh == ch,
    ;
    assert(0 <= col) by (nonlinear_arith)
        requires
            col == jc * bw + t,
            0 <= jc,
            0 <= t,
            0 <= bw,
    ;
    assert(0 <= k < cw * ch) by (nonlinear_arith)
        requires
            k == row * cw + col,
            0 <= row < ch,
            0 <= col < cw,
    ;
    crate::lemma_split_index(k, cw);
    crate::lemma_row_major_unique(k / cw, k % cw, row, col, cw);
    crate::lemma_split_index(row, bh);
    crate::lemma_row_major_unique(row / bh, row % bh, q, jr, bh);
    crate::lemma_split_index(col, bw);
    crate::lemma_row_major_unique(col / bw, col % bw, jc, t, bw);
    assert(w == nv * (bw + 2)) by (nonlinear_arith)
        requires
            w == cw + 2 * nv,
            bw * nv == cw,
    ;
    let a = q * (bh + 2) + 1;
    assert(row + 1 + 2 * q == a + jr) by (nonlinear_arith)
        requires
            row == q * bh + jr,
            a == q * (bh + 2) + 1,
    ;
    assert((a + jr) * w == a * w + jr * w) by (nonlinear_arith);
    assert(jr * w == (jr * nv) * (bw + 2)) by (nonlinear_arith)
        requires
            w == nv * (bw + 2),
    ;
    assert(j * (bw + 2) == (jr * nv) * (bw + 2) + jc * (bw + 2)) by (nonlinear_arith)
        requires
            j == jr * nv + jc,
    ;
    assert(col + 1 + 2 * jc == jc * (bw + 2) + 1 + t) by (nonlinear_arith)
        requires
            col == jc * bw + t,
    ;
}

impl MatrixMap {
    /// The modules, row by row.
    pub closed spec fn spec_entries(&self) -> Seq<bool> {
        self.entries@
    }

    /// Number of module columns.
    pub closed spec fn spec_width(&self) -> int {
        self.width as int
    }

    /// Number of module rows.
    pub closed spec fn spec_height(&self) -> int {
        self.height as int
    }

    /// The modules, row by row.
    pub fn entries(&self) -> (r: &[bool])
        ensures
            r@ == self.spec_entries(),
    {
        self.entries.as_slice()
    }

    /// Whether the size leaves four modules over, which hold a fixed pattern.
    pub closed spec fn spec_has_padding(&self) -> bool {
        self.has_padding
    }

    /// Whether the map has the layout of symbols of `size`.
    pub closed spec fn fits(&self, size: SymbolSize) -> bool {
        let s = size.spec_setup();
        &&& self.width == s.spec_content_width()
        &&& self.height == s.spec_content_height()
        &&& self.extra_vertical_alignments == s.extra_vertical_alignments
        &&& self.extra_horizontal_alignments == s.extra_horizontal_alignments
        &&& self.has_padding == (content_len(s) % 8 != 0)
        &&& self.entries@.len() == content_len(s)
    }

    /// Whether the map has the layout of some symbol size.
    pub closed spec fn wf(&self) -> bool {
        exists|s: SymbolSize| #[trigger] self.fits(s)
    }

    /// A new, empty matrix for the symbol size.
    pub fn new(size: SymbolSize) -> (m: MatrixMap)
        ensures
            m.fits(size),
            m.wf(),
            m.spec_entries() == Seq::new(content_len(size.spec_setup()) as nat, |k: int| false),
    {
        proof { size.lemma_table_consistent(); }
        let setup = size.block_setup();
        let w = setup.content_width();
        let h = setup.content_height();
        proof {
            assert(w * h <= 144 * 144) by (nonlinear_arith)
                requires w <= 144, h <= 144;
        }
        let len: usize = w * h;
        let m = MatrixMap {
            entries: vec![false; len],
            width: w,
            height: h,
            extra_vertical_alignments: setup.extra_vertical_alignments,
            extra_horizontal_alignments: setup.extra_horizontal_alignments,
            has_padding: size.has_padding_modules(),
        };
        assert(m.entries@ =~= Seq::new(content_len(size.spec_setup()) as nat, |k: int| false));
        assert(m.fits(size));
        m
    }

    /// The positions, as indices into the modules, of the bits of each
    /// codeword in the order of the codewords, most significant bit first.
    pub fn codeword_positions(&self) -> (r: Vec<[usize; 8]>)
        requires
            self.wf(),
        ensures
            forall|k: int, b: int| 0 <= k < r@.len() && 0 <= b < 8 ==> #[trigger] r@[k][b] < self.spec_entries().len(),
            walk_views(r@) == self.spec_placement(),
    {
        let ghost s = choose|s: SymbolSize| self.fits(s);
        proof { s.lemma_table_consistent(); }
        IndexTraversal { width: self.width, height: self.height }.run()
    }

    /// The placement walk of the matrix: the module indices of each codeword.
    pub open spec fn spec_placement(&self) -> Seq<Seq<usize>> {
        spec_walk(self.spec_width(), self.spec_height())
    }

    /// Writes the 4x4 padding pattern into the lower right corner if the size needs it.
    pub fn write_padding(&mut self)
        requires
            old(self).wf(),
        ensures
            final(self).wf(),
            forall|s: SymbolSize| old(self).fits(s) ==> #[trigger] final(self).fits(s),
            final(self).spec_width() == old(self).spec_width(),
            final(self).spec_height() == old(self).spec_height(),
            final(self).spec_entries() == (if old(self).spec_has_padding() {
                old(self).spec_entries().update(
                    (old(self).spec_height() - 2) * old(self).spec_width() + old(self).spec_width() - 2, true).update(
                    (old(self).spec_height() - 1) * old(self).spec_width() + old(self).spec_width() - 1, true)
            } else {
                old(self).spec_entries()
            }),
    {
        let ghost s = choose|s: SymbolSize| self.fits(s);
        proof { s.lemma_table_consistent(); }
        if self.has_padding {
            let first_row = self.height - 2;
            let first_col = self.width - 2;
            let last_row = self.height - 1;
            let last_col = self.width - 1;
            self.set_bit(first_row, first_col, true);
            assert(self.fits(s));
            self.set_bit(last_row, last_col, true);
            assert(self.fits(s));
        }
    }

    /// Sets the module at `(row, column)`.
    fn set_bit(&mut self, row: usize, column: usize, value: bool)
        requires
            row < old(self).height,
            column < old(self).width,
            old(self).width <= 144,
            old(self).height <= 144,
            old(self).entries@.len() == old(self).width * old(self).height,
        ensures
            final(self).entries@ == old(self).entries@.update(row * old(self).width + column, value),
            final(self).entries@.len() == old(self).entries@.len(),
            row * old(self).width + column < old(self).entries@.len(),
            final(self).width == old(self).width,
            final(self).height == old(self).height,
            final(self).extra_vertical_alignments == old(self).extra_vertical_alignments,
            final(self).extra_horizontal_alignments == old(self).extra_horizontal_alignments,
            final(self).has_padding == old(self).has_padding,
    {
        let index = cell_index(row, column, self.width, self.height);
        self.entries.set(index, value);
    }

    /// The contents of the matrix as a bitmap, with the finder and alignment patterns.
    pub fn bitmap(&self) -> (b: Bitmap)
        requires
            self.wf(),
        ensures
            bitmap_shows(b, *self),
    {
        let ghost s = choose|s: SymbolSize| self.fits(s);
        let ghost st = s.spec_setup();
        proof {
            s.lemma_table_consistent();
            lemma_blocks(st);
        }
        let extra_hor = self.extra_horizontal_alignments;
        let extra_ver = self.extra_vertical_alignments;
        let h: usize = self.height + 2 + extra_hor * 2;
        let w: usize = self.width + 2 + extra_ver * 2;
        let blk_h = self.height / (extra_hor + 1);
        let blk_w = self.width / (extra_ver + 1);
        proof {
            assert(h == st.height && w == st.width);
            assert(h * w <= 144 * 144) by (nonlinear_arith)
                requires
                    h <= 144,
                    w <= 144,
            ;
        }
        let mut bits: Vec<bool> = Vec::with_capacity(h * w);
        let mut r: usize = 0;
        while r < h
            invariant
                self.fits(s),
                st == s.spec_setup(),
                st.wf(),
                h == st.height,
                w == st.width,
                h * w <= 144 * 144,
                blk_h == st.spec_content_height() / (st.extra_horizontal_alignments as int + 1),
                blk_w == st.spec_content_width() / (st.extra_vertical_alignments as int + 1),
                r <= h,
                bits@.len() == r * w,
                forall|k: int| 0 <= k < bits@.len() ==> #[trigger] bits@[k] == symbol_module(
                    self.entries@,
                    st,
                    k / (w as int),
                    k % (w as int),
                ),
            decreases h - r,
        {
            let mut c: usize = 0;
            while c < w
                invariant
                    self.fits(s),
                    st == s.spec_setup(),
                    st.wf(),
                    h == st.height,
                    w == st.width,
                    h * w <= 144 * 144,
                    blk_h == st.spec_content_height() / (st.extra_horizontal_alignments as int + 1),
                    blk_w == st.spec_content_width() / (st.extra_vertical_alignments as int + 1),
                    r < h,
                    c <= w,
                    bits@.len() == r * w + c,
                    forall|k: int| 0 <= k < bits@.len() ==> #[trigger] bits@[k] == symbol_module(
                        self.entries@,
                        st,
                        k / (w as int),
                        k % (w as int),
                    ),
                decreases w - c,
            {
                let rr = r % (blk_h + 2);
                let cc = c % (blk_w + 2);
                let v = if rr == blk_h + 1 {
                    true
                } else if rr == 0 {
                    c % 2 == 0
                } else if cc == 0 {
                    true
                } else if cc == blk_w + 1 {
                    r % 2 == 1
                } else {
                    proof {
                        lemma_region_content_index(st, r as int, c as int);
                        assert(self.width == st.spec_content_width());
                        assert(self.entries@.len() == st.spec_content_width() * st.spec_content_height());
                    }
                    let row = (r / (blk_h + 2)) * blk_h + rr - 1;
                    let col = (c / (blk_w + 2)) * blk_w + cc - 1;
                    proof {
                        assert(row * self.width + col < self.entries@.len());
                        assert(st.spec_content_width() * st.spec_content_height() <= 144 * 144) by (nonlinear_arith)
                            requires
                                0 <= st.spec_content_width() <= 144,
                                0 <= st.spec_content_height() <= 144,
                        ;
                    }
                    let index = row * self.width + col;
                    self.entries[index]
                };
                proof {
                    assert(r * w + c < h * w) by (nonlinear_arith)
                        requires
                            r < h,
                            c < w,
                    ;
                    crate::lemma_split_index(r * w + c, w as int);
                    crate::lemma_row_major_unique((r * w + c) / (w as int), (r * w + c) % (w as int), r as int, c as int,
                        w as int);
                }
                let ghost before = bits@;
                bits.push(v);
                proof {
                    assert forall|k: int| 0 <= k < bits@.len() implies #[trigger] bits@[k] == symbol_module(
                        self.entries@,
                        st,
                        k / (w as int),
                        k % (w as int),
                    ) by {
                        if k < before.len() {
                            assert(before[k] == bits@[k]);
                        }
                    }
                }
                c += 1;
            }
            proof {
                assert(r * w + w == (r + 1) * w) by (nonlinear_arith);
            }
            r += 1;
        }
        proof {
            vstd::arithmetic::div_mod::lemma_fundamental_div_mod_converse((h * w) as int, w as int, h as int, 0);
            assert((w + 1) * (h + 1) <= 145 * 145) by (nonlinear_arith)
                requires
                    w <= 144,
                    h <= 144,
            ;
            assert(h * w == w * h) by (nonlinear_arith);
            assert forall|k: int| 0 <= k < self.entries@.len() implies #[trigger] bits@[content_module_index(k, st)]
                == self.entries@[k] by {
                lemma_data_position(k, st);
                lemma_content_module_in(k, st);
                crate::lemma_split_index(content_module_index(k, st), w as int);
            }
        }
        let b = Bitmap { width: w, bits };
        proof {
            assert forall|s2: SymbolSize, k: int| self.fits(s2) && 0 <= k < self.spec_entries().len() implies #[trigger] b.spec_bits()[
                content_module_index(k, s2.spec_setup())] == self.spec_entries()[k] by {
                s2.lemma_layout_from_dimensions(s);
            }
            assert forall|s2: SymbolSize| self.fits(s2) implies b.spec_width() == #[trigger] s2.spec_setup().width
                && b.spec_height() == s2.spec_setup().height by {
                s2.lemma_layout_from_dimensions(s);
            }
            assert forall|s2: SymbolSize, k: int| #![trigger self.fits(s2), b.spec_bits()[k]] self.fits(s2) && 0 <= k
                < b.spec_bits().len() implies b.spec_bits()[k] == symbol_module(
                self.spec_entries(),
                s2.spec_setup(),
                k / b.spec_width(),
                k % b.spec_width(),
            ) by {
                s2.lemma_layout_from_dimensions(s);
            }
        }
        b
    }
}

impl MatrixMap {
    /// Writes the given bits to the codewords in the order of the placement,
    /// most significant bit first; `values[k]` goes to codeword `k`.
    #[verifier::spinoff_prover]
    #[verifier::rlimit(40)]
    pub fn traverse_mut(&mut self, values: &[[bool; 8]])
        requires
            old(self).wf(),
        ensures
            forall|s: SymbolSize| old(self).fits(s) ==> #[trigger] final(self).fits(s),
            final(self).wf(),
            final(self).spec_width() == old(self).spec_width(),
            final(self).spec_height() == old(self).spec_height(),
            final(self).spec_has_padding() == old(self).spec_has_padding(),
            final(self).spec_entries() == spec_placed(
                old(self).spec_entries(),
                old(self).spec_placement(),
                values@.map_values(|a: [bool; 8]| a@),
            ),
    {
        let ghost s = choose|s: SymbolSize| self.fits(s);
        let ghost e0 = self.entries@;
        let ghost bits = values@.map_values(|a: [bool; 8]| a@);
        let positions = self.codeword_positions();
        let ghost walk = walk_views(positions@);
        let count = if positions.len() < values.len() { positions.len() } else { values.len() };
        let mut k: usize = 0;
        while k < count
            invariant
                walk == walk_views(positions@),
                bits == values@.map_values(|a: [bool; 8]| a@),
                self.entries@ == spec_place(e0, walk, bits, k as int),
                count <= positions@.len(),
                count <= values@.len(),
                forall|t: SymbolSize| old(self).fits(t) ==> #[trigger] self.fits(t),
                self.fits(s),
                self.width == old(self).width,
                self.height == old(self).height,
                self.has_padding == old(self).has_padding,
                forall|a: int, b: int| 0 <= a < positions@.len() && 0 <= b < 8 ==> #[trigger] positions@[a][b] < self.entries@.len(),
                k <= count,
            decreases count - k,
        {
            let ghost ek = self.entries@;
            let mut b: usize = 0;
            while b < 8
                invariant
                    ek == spec_place(e0, walk, bits, k as int),
                    walk == walk_views(positions@),
                    bits == values@.map_values(|a: [bool; 8]| a@),
                    self.entries@ == spec_write_bits(ek, positions@[k as int]@, values@[k as int]@, b as int),
                    k < count,
                    count <= positions@.len(),
                    count <= values@.len(),
                    forall|t: SymbolSize| old(self).fits(t) ==> #[trigger] self.fits(t),
                    self.fits(s),
                    self.width == old(self).width,
                    self.height == old(self).height,
                    self.has_padding == old(self).has_padding,
                    forall|a: int, c: int| 0 <= a < positions@.len() && 0 <= c < 8 ==> #[trigger] positions@[a][c] < self.entries@.len(),
                    b <= 8,
                decreases 8 - b,
            {
                let p = positions[k][b];
                self.entries.set(p, values[k][b]);
                b += 1;
            }
            proof {
                assert(walk[k as int] == positions@[k as int]@);
                assert(bits[k as int] == values@[k as int]@);
            }
            k += 1;
        }
        proof {
            assert(walk.len() == positions@.len());
            assert(bits.len() == values@.len());
        }
    }

    /// The bits of each codeword in the order of the placement, most
    /// significant bit first.
    pub fn traverse(&self) -> (r: Vec<[bool; 8]>)
        requires
            self.wf(),
        ensures
            r@.len() == self.spec_placement().len(),
            forall|k: int, b: int|
                0 <= k < r@.len() && 0 <= b < 8 ==> #[trigger] r@[k][b] == self.spec_entries()[self.spec_placement()[k][b] as int],
    {
        let positions = self.codeword_positions();
        let ghost walk = walk_views(positions@);
        let mut out: Vec<[bool; 8]> = Vec::with_capacity(positions.len());
        let mut k: usize = 0;
        while k < positions.len()
            invariant
                walk == self.spec_placement(),
                walk == walk_views(positions@),
                out@.len() == k,
                forall|a: int, b: int|
                    0 <= a < k && 0 <= b < 8 ==> #[trigger] out@[a][b] == self.entries@[walk[a][b] as int],
                forall|a: int, b: int| 0 <= a < positions@.len() && 0 <= b < 8 ==> #[trigger] positions@[a][b] < self.entries@.len(),
                k <= positions@.len(),
            decreases positions@.len() - k,
        {
            let p = positions[k];
            let bits = [
                self.entries[p[0]],
                self.entries[p[1]],
                self.entries[p[2]],
                self.entries[p[3]],
                self.entries[p[4]],
                self.entries[p[5]],
                self.entries[p[6]],
                self.entries[p[7]],
            ];
            proof { assert(walk[k as int] == p@); }
            out.push(bits);
            k += 1;
        }
        out
    }

    /// A matrix filled with the codewords of a symbol of `symbol_size`.
    ///
    /// # Errors
    ///
    /// Fails when the number of codewords is not that of the symbol size.
    pub fn new_with_codewords(data: &[u8], symbol_size: SymbolSize) -> (r: Result<MatrixMap, BitmapConversionError>)
        ensures
            data@.len() != symbol_size.spec_num_codewords() ==> r == Err::<MatrixMap, BitmapConversionError>(
                BitmapConversionError::CodewordCount {
                    expected: symbol_size.spec_num_codewords() as usize,
                    actual: data@.len() as usize,
                },
            ),
            data@.len() == symbol_size.spec_num_codewords() ==> (r matches Ok(m) && m.fits(symbol_size) && m.wf()
                && m.spec_width() == symbol_size.spec_setup().spec_content_width()
                && m.spec_height() == symbol_size.spec_setup().spec_content_height()
                && m.spec_entries() == spec_symbol_modules(data@, symbol_size.spec_setup())),
    {
        let expected = symbol_size.num_codewords();
        if data.len() != expected {
            return Err(BitmapConversionError::CodewordCount { expected, actual: data.len() });
        }
        let mut matrix = MatrixMap::new(symbol_size);
        matrix.copy_from_codewords(data);
        proof {
            let st = symbol_size.spec_setup();
            assert(matrix.fits(symbol_size));
            assert(Seq::new((st.spec_content_width() * st.spec_content_height()) as nat, |k: int| false)
                =~= Seq::new(content_len(st) as nat, |k: int| false));
        }
        Ok(matrix)
    }

    /// Copies the codewords to their positions, and writes the padding
    /// pattern if the size needs it.
    fn copy_from_codewords(&mut self, data: &[u8])
        requires
            old(self).wf(),
        ensures
            forall|s: SymbolSize| old(self).fits(s) ==> #[trigger] final(self).fits(s),
            final(self).wf(),
            final(self).spec_width() == old(self).spec_width(),
            final(self).spec_height() == old(self).spec_height(),
            final(self).spec_entries() == spec_padded(
                spec_placed(old(self).spec_entries(), old(self).spec_placement(), data@.map_values(|v: u8| spec_byte_bits(v))),
                old(self).spec_width(),
                old(self).spec_height(),
                old(self).spec_has_padding(),
            ),
    {
        let mut values: Vec<[bool; 8]> = Vec::with_capacity(data.len());
        let mut k: usize = 0;
        while k < data.len()
            invariant
                k <= data@.len(),
                values@.len() == k,
                forall|a: int| 0 <= a < k ==> #[trigger] values@[a]@ == spec_byte_bits(data@[a]),
            decreases data@.len() - k,
        {
            let v = codeword_bits(data[k]);
            proof { assert(v@ =~= spec_byte_bits(data@[k as int])); }
            values.push(v);
            k += 1;
        }
        proof {
            assert(values@.map_values(|a: [bool; 8]| a@) =~= data@.map_values(|v: u8| spec_byte_bits(v)));
        }
        self.traverse_mut(values.as_slice());
        self.write_padding();
    }

    /// The codewords, error correction codewords included.
    pub fn codewords(&self) -> (r: Vec<u8>)
        requires
            self.wf(),
        ensures
            r@.len() == self.spec_entries().len() / 8,
            r@ == spec_read_codewords(*self),
    {
        let n = self.entries.len() / 8;
        let mut data: Vec<u8> = vec![0u8; n];
        let codeword_bits = self.traverse();
        let ghost walk = self.spec_placement();
        let ghost e = self.entries@;
        let count = if codeword_bits.len() < n { codeword_bits.len() } else { n };
        let mut k: usize = 0;
        while k < count
            invariant
                data@.len() == n,
                count <= n,
                count <= codeword_bits@.len(),
                k <= count,
                codeword_bits@.len() == walk.len(),
                forall|a: int, b: int|
                    0 <= a < codeword_bits@.len() && 0 <= b < 8 ==> #[trigger] codeword_bits@[a][b] == e[walk[a][b] as int],
                forall|a: int| 0 <= a < k ==> #[trigger] data@[a] == spec_read_codeword(e, walk[a]),
                forall|a: int| k <= a < n ==> #[trigger] data@[a] == 0u8,
            decreases count - k,
        {
            let c = codeword_bits[k];
            proof {
                assert(c[0] == e[walk[k as int][0] as int]);
                assert(c[1] == e[walk[k as int][1] as int]);
                assert(c[2] == e[walk[k as int][2] as int]);
                assert(c[3] == e[walk[k as int][3] as int]);
                assert(c[4] == e[walk[k as int][4] as int]);
                assert(c[5] == e[walk[k as int][5] as int]);
                assert(c[6] == e[walk[k as int][6] as int]);
                assert(c[7] == e[walk[k as int][7] as int]);
                assert(spec_codeword_value(c) == spec_read_codeword(e, walk[k as int]));
            }
            data.set(k, codeword_value(c));
            k += 1;
        }
        proof { assert(data@ =~= spec_read_codewords(*self)); }
        data
    }
}

/// The finder pattern of a symbol bitmap: the left column and the bottom
/// row are dark, the top row alternates, dark at even columns.
pub proof fn lemma_finder_pattern(b: Bitmap, m: MatrixMap, s: SymbolSize)
    requires
        bitmap_shows(b, m),
        m.fits(s),
    ensures
        forall|r: int| 0 <= r < b.spec_height() ==> #[trigger] b.spec_bits()[r * b.spec_width()],
        forall|c: int| 0 <= c < b.spec_width() ==> #[trigger] b.spec_bits()[(b.spec_height() - 1) * b.spec_width() + c],
        forall|c: int| 0 <= c < b.spec_width() ==> #[trigger] b.spec_bits()[c] == (c % 2 == 0),
{
    s.lemma_table_consistent();
    let st = s.spec_setup();
    lemma_blocks(st);
    let w = b.spec_width();
    let h = b.spec_height();
    assert(w == st.width && h == st.height);
    let nv = st.extra_vertical_alignments as int + 1;
    let nh = st.extra_horizontal_alignments as int + 1;
    let bw = st.spec_content_width() / nv;
    let bh = st.spec_content_height() / nh;
    crate::lemma_split_index(b.spec_bits().len() as int, w);
    assert(b.spec_bits().len() == h * w) by (nonlinear_arith)
        requires
            b.spec_bits().len() == (b.spec_bits().len() as int / w) * w + (b.spec_bits().len() as int) % w,
            (b.spec_bits().len() as int) % w == 0,
            h == b.spec_bits().len() as int / w;
    assert(h == nh * (bh + 2)) by (nonlinear_arith)
        requires
            h == st.spec_content_height() + 2 * nh,
            bh * nh == st.spec_content_height();
    assert forall|r: int, c: int| 0 <= r < h && 0 <= c < w implies #[trigger] b.spec_bits()[r * w + c]
        == symbol_module(m.spec_entries(), st, r, c) by {
        assert(0 <= r * w + c < h * w) by (nonlinear_arith)
            requires 0 <= r < h, 0 <= c < w;
        crate::lemma_split_index(r * w + c, w);
        crate::lemma_row_major_unique((r * w + c) / w, (r * w + c) % w, r, c, w);
    }
    assert forall|r: int| 0 <= r < h implies #[trigger] b.spec_bits()[r * w] by {
        assert(r * w == r * w + 0);
        assert(b.spec_bits()[r * w + 0] == symbol_module(m.spec_entries(), st, r, 0));
        assert(0int % (bw + 2) == 0);
    }
    assert forall|c: int| 0 <= c < w implies #[trigger] b.spec_bits()[(h - 1) * w + c] by {
        assert(b.spec_bits()[(h - 1) * w + c] == symbol_module(m.spec_entries(), st, h - 1, c));
        assert((h - 1) % (bh + 2) == bh + 1) by (nonlinear_arith)
            requires
                h == nh * (bh + 2),
                nh >= 1,
                bh >= 0,
        {
            assert(h - 1 == (nh - 1) * (bh + 2) + (bh + 1));
            vstd::arithmetic::div_mod::lemma_fundamental_div_mod(h - 1, bh + 2);
            vstd::arithmetic::div_mod::lemma_mod_multiples_vanish(nh - 1, bh + 1, bh + 2);
        }
    }
    assert forall|c: int| 0 <= c < w implies #[trigger] b.spec_bits()[c] == (c % 2 == 0) by {
        assert(0 * w + c == c);
        assert(b.spec_bits()[0 * w + c] == symbol_module(m.spec_entries(), st, 0, c));
        assert(0int % (bh + 2) == 0);
    }
}

/// Two matrices of one symbol size have the same layout, and a matrix of a
/// size holds its codewords: an eighth of its modules, rounded down.
pub proof fn lemma_fits_layout(m1: MatrixMap, m2: MatrixMap, s: SymbolSize)
    requires
        m1.fits(s),
        m2.fits(s),
    ensures
        m1.spec_width() == m2.spec_width(),
        m1.spec_height() == m2.spec_height(),
        m1.spec_has_padding() == m2.spec_has_padding(),
        m1.spec_entries().len() == m2.spec_entries().len(),
        m1.spec_entries().len() / 8 == s.spec_num_codewords(),
{
    s.lemma_table_consistent();
}

impl MatrixMap {
    /// Reads the matrix from a bitmap.
    ///
    /// `bits` is a rectangular image, row by row from the top left corner,
    /// finder and alignment patterns included.
    ///
    /// # Errors
    ///
    /// Fails when the width is zero, when the data does not fit the width,
    /// when no symbol size has the dimensions, or when the alignment or
    /// padding pattern is invalid.
    #[verifier::rlimit(40)]
    pub fn try_from_bits(bits: &[bool], width: usize) -> (r: Result<(MatrixMap, SymbolSize), BitmapConversionError>)
        ensures
            width == 0 ==> r == Err::<(MatrixMap, SymbolSize), BitmapConversionError>(BitmapConversionError::ZeroWidth),
            width > 0 && (bits@.len() as int) % (width as int) != 0
                ==> r == Err::<(MatrixMap, SymbolSize), BitmapConversionError>(BitmapConversionError::DataSize),
            width > 0 && (bits@.len() as int) % (width as int) == 0 && (forall|k: int| 0 <= k < spec_all_sizes().len()
                ==> !(#[trigger] spec_all_sizes()[k].spec_setup().width == width
                    && spec_all_sizes()[k].spec_setup().height == (bits@.len() as int) / (width as int)))
                ==> r == Err::<(MatrixMap, SymbolSize), BitmapConversionError>(BitmapConversionError::SymbolSize),
            read_matches(bits@, width as int, r),
            accepts_symbols(bits@, width as int, r),
            r matches Ok((m, size)) ==> is_symbol_of(bits@, m.spec_entries(), size.spec_setup()) && padding_pattern(
                m.spec_entries(),
                size.spec_setup(),
            ),
    {
        if width == 0 {
            proof {
                assert forall|size2: SymbolSize, ent: Seq<bool>| #[trigger] is_symbol_of(bits@, ent, size2.spec_setup())
                    && size2.spec_setup().width == width && padding_pattern(ent, size2.spec_setup()) implies false by {
                    size2.lemma_table_consistent();
                }
            }
            return Err(BitmapConversionError::ZeroWidth);
        }
        if bits.len() % width != 0 {
            proof {
                assert forall|size2: SymbolSize, ent: Seq<bool>| #[trigger] is_symbol_of(bits@, ent, size2.spec_setup())
                    && size2.spec_setup().width == width && padding_pattern(ent, size2.spec_setup()) implies false by {
                    lemma_symbol_dimensions(bits@, width as int, size2, ent);
                }
            }
            return Err(BitmapConversionError::DataSize);
        }
        let height = bits.len() / width;
        let all = SymbolList::all();
        let sizes = all.sizes();
        let mut k: usize = 0;
        while k < sizes.len() && !has_dimensions(sizes[k], width, height)
            invariant
                sizes@ == spec_all_sizes(),
                k <= sizes@.len(),
                forall|q: int| 0 <= q < k ==> !(#[trigger] spec_all_sizes()[q].spec_setup().width == width
                    && spec_all_sizes()[q].spec_setup().height == height),
            decreases sizes@.len() - k,
        {
            k += 1;
        }
        if k == sizes.len() {
            proof {
                assert forall|size2: SymbolSize, ent: Seq<bool>| #[trigger] is_symbol_of(bits@, ent, size2.spec_setup())
                    && size2.spec_setup().width == width && padding_pattern(ent, size2.spec_setup()) implies false by {
                    lemma_symbol_dimensions(bits@, width as int, size2, ent);
                    size2.lemma_listed();
                    let i = choose|i: int| 0 <= i < spec_all_sizes().len() && spec_all_sizes()[i] == size2;
                    assert(!(spec_all_sizes()[i].spec_setup().width == width
                        && spec_all_sizes()[i].spec_setup().height == height));
                }
            }
            return Err(BitmapConversionError::SymbolSize);
        }
        let size = sizes[k];
        assert(spec_all_sizes()[k as int].spec_setup().width == width);
        proof { size.lemma_table_consistent(); }
        let setup = size.block_setup();
        let w = setup.content_width();
        let h = setup.content_height();
        proof {
            assert(w * h <= 144 * 144) by (nonlinear_arith)
                requires w <= 144, h <= 144;
            assert(height * width <= 144 * 144) by (nonlinear_arith)
                requires width <= 144, height <= 144;
            vstd::arithmetic::div_mod::lemma_fundamental_div_mod(bits@.len() as int, width as int);
            if setup.extra_vertical_alignments == 0 {
                assert(w / 1 == w);
            }
            if setup.extra_horizontal_alignments == 0 {
                assert(h / 1 == h);
            }
        }
        let content_len: usize = w * h;
        let mut entries: Vec<bool> = Vec::with_capacity(content_len);

        let blk_h = h / (setup.extra_horizontal_alignments + 1);
        let blk_w = w / (setup.extra_vertical_alignments + 1);
        proof {
            assert((blk_h + 2) * width <= 146 * 144) by (nonlinear_arith)
                requires blk_h <= 144, width <= 144;
            assert((blk_h + 1) * width <= (blk_h + 2) * width) by (nonlinear_arith);
            assert(width <= (blk_h + 1) * width) by (nonlinear_arith);
            assert((blk_h + 1) * width + width == (blk_h + 2) * width) by (nonlinear_arith);
        }
        let row_chunk_width: usize = (blk_h + 2) * width;
        let last_start: usize = (blk_h + 1) * width;
        let n = bits.len();
        let ghost st = size.spec_setup();
        let ghost nv = setup.extra_vertical_alignments as int + 1;
        let ghost nh = setup.extra_horizontal_alignments as int + 1;
        let ghost cw = w as int;
        proof {
            assert(n == width * height);
            assert(n <= 144 * 144) by (nonlinear_arith)
                requires
                    n == width * height,
                    width <= 144,
                    height <= 144,
            ;
            lemma_blocks(st);
            size.lemma_even_regions();
            assert(setup == st);
            assert(width == nv * (blk_w + 2)) by (nonlinear_arith)
                requires
                    width == cw + 2 * nv,
                    blk_w * nv == cw,
            ;
            assert(height == nh * (blk_h + 2)) by (nonlinear_arith)
                requires
                    height == h + 2 * nh,
                    blk_h * nh == h,
            ;
            assert(n == nh * row_chunk_width) by (nonlinear_arith)
                requires
                    n == width * height,
                    height == nh * (blk_h + 2),
                    row_chunk_width == (blk_h + 2) * width,
            ;
        }
        let ghost mut q: int = 0;
        proof {
            assert(0 * blk_h * cw == 0) by (nonlinear_arith);
        }
        let mut start: usize = 0;
        while start < n
            invariant
                n == bits@.len(),
                n <= 144 * 144,
                0 < width <= 144,
                (n as int) % (width as int) == 0,
                height == (n as int) / (width as int),
                k < spec_all_sizes().len(),
                spec_all_sizes()[k as int].spec_setup().width == width,
                spec_all_sizes()[k as int].spec_setup().height == height,
                setup.extra_vertical_alignments <= 5,
                1 <= blk_w <= 144,
                row_chunk_width <= 146 * 144,
                width <= last_start <= row_chunk_width,
                last_start + width == row_chunk_width,
                entries@.len() <= start,
                st == size.spec_setup(),
                st.wf(),
                nv == st.extra_vertical_alignments + 1,
                nh == st.extra_horizontal_alignments + 1,
                cw == st.spec_content_width(),
                blk_w == cw / nv,
                blk_h == st.spec_content_height() / nh,
                width == st.width,
                width == nv * (blk_w + 2),
                row_chunk_width == (blk_h + 2) * width,
                last_start == (blk_h + 1) * width,
                n == nh * row_chunk_width,
                blk_w * nv == cw,
                0 <= q <= nh,
                start == q * row_chunk_width,
                entries@.len() == q * blk_h * cw,
                st.height == height,
                blk_h % 2 == 0,
                blk_h * nh == st.spec_content_height(),
                setup == st,
                patterns_hold(bits@, st, 0, start as int),
                forall|e: int| 0 <= e < entries@.len() ==> #[trigger] entries@[e] == bits@[content_module_index(e, st)],
            decreases n - start,
        {
            proof {
                assert(q < nh) by (nonlinear_arith)
                    requires
                        start == q * row_chunk_width,
                        start < n,
                        n == nh * row_chunk_width,
                        row_chunk_width > 0,
                ;
            }
            proof {
                assert(n - start >= row_chunk_width) by (nonlinear_arith)
                    requires
                        start == q * row_chunk_width,
                        q < nh,
                        n == nh * row_chunk_width,
                ;
            }
            let end = if n - start < row_chunk_width { n } else { start + row_chunk_width };
            if end - start != row_chunk_width {
                return Err(BitmapConversionError::DataSize);
            }
            // The row above the block alternates, the row below is dark throughout.
            let alignment_ok = all_dark(bits, start + last_start, end) && alternating(bits, start, start + width);
            if !alignment_ok {
                proof {
                    assert forall|size2: SymbolSize, ent: Seq<bool>| #[trigger] is_symbol_of(bits@, ent, size2.spec_setup())
                    && size2.spec_setup().width == width && padding_pattern(ent, size2.spec_setup()) implies false by {
                        lemma_symbol_size_found(bits@, width as int, size, size2, ent);
                        lemma_band_coords(st, q, ent);
                        assert(start == q * ((blk_h + 2) * width));
                    }
                }
                return Err(BitmapConversionError::Alignment);
            }
            proof {
                vstd::arithmetic::div_mod::lemma_mod_multiples_basic(nv, (blk_w + 2) as int);
                lemma_band_coords(st, q, Seq::<bool>::empty());
                assert(start == q * ((blk_h + 2) * width));
                assert(patterns_hold(bits@, st, 0, start + width as int));
                assert(patterns_hold(bits@, st, (start + last_start) as int, end as int));
            }
            if width % (blk_w + 2) != 0 {
                return Err(BitmapConversionError::DataSize);
            }
            let mut alignment_bit = false;
            let mut row: usize = start + width;
            let row_end = start + last_start;
            let mut j: usize = 0;
            while row < row_end
                invariant
                    n == bits@.len(),
                    n <= 144 * 144,
                    0 < width <= 144,
                    (n as int) % (width as int) == 0,
                    height == (n as int) / (width as int),
                    k < spec_all_sizes().len(),
                    spec_all_sizes()[k as int].spec_setup().width == width,
                    spec_all_sizes()[k as int].spec_setup().height == height,
                    row_end <= n,
                    row_end == start + last_start,
                    row <= row_end,
                    setup.extra_vertical_alignments <= 5,
                    start + width <= row,
                    1 <= blk_w <= 144,
                    entries@.len() <= row,
                    j <= row,
                    st == size.spec_setup(),
                    st.wf(),
                    nv == st.extra_vertical_alignments + 1,
                    nh == st.extra_horizontal_alignments + 1,
                    cw == st.spec_content_width(),
                    blk_w == cw / nv,
                    blk_h == st.spec_content_height() / nh,
                    width == st.width,
                    width == nv * (blk_w + 2),
                    row_chunk_width == (blk_h + 2) * width,
                    last_start == (blk_h + 1) * width,
                    n == nh * row_chunk_width,
                    blk_w * nv == cw,
                    0 <= q < nh,
                    start == q * row_chunk_width,
                    row == start + width + j * (blk_w + 2),
                    j <= blk_h * nv,
                    entries@.len() == q * blk_h * cw + j * blk_w,
                    st.height == height,
                    blk_h % 2 == 0,
                    alignment_bit == (j > 0 && ((j - 1) / nv) % 2 == 0),
                    setup.extra_vertical_alignments + 1 == nv,
                    end == start + row_chunk_width,
                    patterns_hold(bits@, st, 0, row as int),
                    patterns_hold(bits@, st, (start + last_start) as int, end as int),
                    forall|e: int| 0 <= e < entries@.len() ==> #[trigger] entries@[e] == bits@[content_module_index(e, st)],
                decreases row_end - row,
            {
                proof {
                    assert(j < blk_h * nv && row + blk_w + 2 <= row_end) by (nonlinear_arith)
                        requires
                            row == start + width + j * (blk_w + 2),
                            row < row_end,
                            row_end == start + last_start,
                            last_start == (blk_h + 1) * width,
                            width == nv * (blk_w + 2),
                    ;
                }
                if row + blk_w + 2 > row_end {
                    return Err(BitmapConversionError::DataSize);
                }
                if j % (setup.extra_vertical_alignments + 1) == 0 {
                    alignment_bit = !alignment_bit;
                }
                proof {
                    lemma_toggle(j as int, nv);
                }
                let alignment_ok = bits[row] && bits[row + blk_w + 1] == alignment_bit;
                if !alignment_ok {
                    proof {
                        assert forall|size2: SymbolSize, ent: Seq<bool>| #[trigger] is_symbol_of(bits@, ent, size2.spec_setup())
                    && size2.spec_setup().width == width && padding_pattern(ent, size2.spec_setup()) implies false by {
                            lemma_symbol_size_found(bits@, width as int, size, size2, ent);
                            lemma_slice_coords(st, q, j as int, ent);
                            assert(start == q * ((blk_h + 2) * width));
                        }
                    }
                    return Err(BitmapConversionError::Alignment);
                }
                proof {
                    lemma_slice_coords(st, q, j as int, Seq::<bool>::empty());
                    assert(start == q * ((blk_h + 2) * width));
                    assert forall|k: int| 0 <= k < row + blk_w + 2 && !data_at(st, k) implies #[trigger] bits@[k]
                        == module_at(Seq::<bool>::empty(), st, k) by {
                        if k >= row + 1 && k <= row + blk_w {
                            assert(data_at(st, row + (k - row)));
                        }
                    }
                }
                let mut c: usize = row + 1;
                while c < row + blk_w + 1
                    invariant
                        row + blk_w + 2 <= row_end,
                        row_end <= n,
                        n == bits@.len(),
                        row + 1 <= c <= row + blk_w + 1,
                        entries@.len() <= c,
                        st.wf(),
                        nv == st.extra_vertical_alignments + 1,
                        nh == st.extra_horizontal_alignments + 1,
                        cw == st.spec_content_width(),
                        blk_w == cw / nv,
                        blk_h == st.spec_content_height() / nh,
                        width == st.width,
                        row_chunk_width == (blk_h + 2) * width,
                        0 <= q < nh,
                        start == q * row_chunk_width,
                        row == start + width + j * (blk_w + 2),
                        0 <= j < blk_h * nv,
                        entries@.len() == q * blk_h * cw + j * blk_w + (c - row - 1),
                        forall|e: int| 0 <= e < entries@.len() ==> #[trigger] entries@[e] == bits@[content_module_index(e, st)],
                    decreases row + blk_w + 1 - c,
                {
                    proof {
                        lemma_read_position(q, j as int, c - row - 1, st);
                        assert(q * row_chunk_width + width == (q * (blk_h + 2) + 1) * width) by (nonlinear_arith)
                            requires
                                row_chunk_width == (blk_h + 2) * width,
                        ;
                    }
                    let ghost before = entries@;
                    entries.push(bits[c]);
                    proof {
                        assert forall|e: int| 0 <= e < entries@.len() implies #[trigger] entries@[e]
                            == bits@[content_module_index(e, st)] by {
                            if e < before.len() {
                                assert(before[e] == bits@[content_module_index(e, st)]);
                            }
                        }
                    }
                    c += 1;
                }
                proof {
                    assert((j + 1) * (blk_w + 2) == j * (blk_w + 2) + blk_w + 2) by (nonlinear_arith);
                    assert((j + 1) * blk_w == j * blk_w + blk_w) by (nonlinear_arith);
                }
                row = row + blk_w + 2;
                j += 1;
            }
            proof {
                assert(j == blk_h * nv) by (nonlinear_arith)
                    requires
                        row == start + width + j * (blk_w + 2),
                        row >= row_end,
                        row_end == start + last_start,
                        last_start == (blk_h + 1) * width,
                        width == nv * (blk_w + 2),
                        j <= blk_h * nv,
                ;
                assert(entries@.len() == (q + 1) * blk_h * cw) by (nonlinear_arith)
                    requires
                        entries@.len() == q * blk_h * cw + j * blk_w,
                        j == blk_h * nv,
                        blk_w * nv == cw,
                ;
                assert(end == (q + 1) * row_chunk_width) by (nonlinear_arith)
                    requires
                        end == start + row_chunk_width,
                        start == q * row_chunk_width,
                ;
                assert(row == start + last_start) by (nonlinear_arith)
                    requires
                        row == start + width + j * (blk_w + 2),
                        j == blk_h * nv,
                        width == nv * (blk_w + 2),
                        last_start == (blk_h + 1) * width,
                ;
                assert(patterns_hold(bits@, st, 0, end as int));
                q = q + 1;
            }
            start = end;
        }
        proof {
            assert(q == nh) by (nonlinear_arith)
                requires
                    start == q * row_chunk_width,
                    start >= n,
                    q <= nh,
                    n == nh * row_chunk_width,
                    row_chunk_width > 0,
            ;
            assert(entries@.len() == content_len) by (nonlinear_arith)
                requires
                    entries@.len() == q * blk_h * cw,
                    q == nh,
                    blk_h * nh == h,
                    content_len == cw * h,
            ;
            assert(content_len >= w + 2) by (nonlinear_arith)
                requires
                    content_len == w * h,
                    w >= 6,
                    h >= 6,
            ;
        }
        if entries.len() != content_len {
            return Err(BitmapConversionError::DataSize);
        }

        if size.has_padding_modules() {
            let len = entries.len();
            if len < w + 2 {
                return Err(BitmapConversionError::DataSize);
            }
            let padding_ok = !entries[len - 2] && entries[len - 1] && entries[len - w - 2] && !entries[len - w - 1];
            if !padding_ok {
                proof {
                    assert forall|size2: SymbolSize, ent: Seq<bool>| #[trigger] is_symbol_of(bits@, ent, size2.spec_setup())
                    && size2.spec_setup().width == width && padding_pattern(ent, size2.spec_setup()) implies false by {
                        lemma_symbol_size_found(bits@, width as int, size, size2, ent);
                        assert forall|e: int| 0 <= e < entries@.len() implies #[trigger] entries@[e] == ent[e] by {
                            lemma_data_position(e, st);
                            lemma_content_module_in(e, st);
                            assert(symbol_module(ent, st, content_module_index(e, st) / (st.width as int),
                                content_module_index(e, st) % (st.width as int)) == ent[e]);
                        }
                        assert(entries@ =~= ent);
                    }
                }
                return Err(BitmapConversionError::Padding);
            }
        }

        proof {
            assert(start == n) by (nonlinear_arith)
                requires
                    start == q * row_chunk_width,
                    q == nh,
                    n == nh * row_chunk_width,
            ;
            assert(n == st.width * st.height);
            assert forall|k: int| 0 <= k < n implies #[trigger] bits@[k] == module_at(entries@, st, k) by {
                if data_at(st, k) {
                    lemma_region_inverse(st, k);
                } else {
                    assert(bits@[k] == module_at(Seq::<bool>::empty(), st, k));
                }
            }
            assert(is_symbol_of(bits@, entries@, st));
        }
        let matrix_map = MatrixMap {
            entries,
            width: w,
            height: h,
            extra_vertical_alignments: setup.extra_vertical_alignments,
            extra_horizontal_alignments: setup.extra_horizontal_alignments,
            has_padding: size.has_padding_modules(),
        };
        assert(matrix_map.fits(size));
        Ok((matrix_map, size))
    }
}

/// A symbol's modules fill whole rows of its width.
proof fn lemma_symbol_dimensions(bits: Seq<bool>, width: int, size: SymbolSize, entries: Seq<bool>)
    requires
        is_symbol_of(bits, entries, size.spec_setup()),
        size.spec_setup().width == width,
    ensures
        width > 0,
        (bits.len() as int) % width == 0,
        (bits.len() as int) / width == size.spec_setup().height,
{
    size.lemma_table_consistent();
    let h = size.spec_setup().height as int;
    assert(bits.len() == h * width) by (nonlinear_arith)
        requires
            bits.len() == width * h,
    ;
    vstd::arithmetic::div_mod::lemma_mod_multiples_basic(h, width);
    vstd::arithmetic::div_mod::lemma_div_multiples_vanish(h, width);
    assert(width * h == h * width) by (nonlinear_arith);
}

/// A symbol of the width and height of `size` is of that size.
proof fn lemma_symbol_size_found(bits: Seq<bool>, width: int, size: SymbolSize, size2: SymbolSize, entries: Seq<bool>)
    requires
        is_symbol_of(bits, entries, size2.spec_setup()),
        size2.spec_setup().width == width,
        size.spec_setup().width == width,
        size.spec_setup().height == (bits.len() as int) / width,
    ensures
        size2 == size,
{
    lemma_symbol_dimensions(bits, width, size2, entries);
    size2.lemma_layout_from_dimensions(size);
}

/// The flag of the right column flips with each row of slices: after slice
/// `j` it tells whether `j / n` is even.
proof fn lemma_toggle(j: int, n: int)
    requires
        0 <= j,
        n > 0,
    ensures
        j % n == 0 ==> ((j / n) % 2 == 0) == !(j > 0 && ((j - 1) / n) % 2 == 0),
        j % n != 0 ==> ((j / n) % 2 == 0) == (j > 0 && ((j - 1) / n) % 2 == 0),
{
    crate::lemma_split_index(j, n);
    if j > 0 {
        crate::lemma_split_index(j - 1, n);
        if j % n == 0 {
            assert(j / n >= 1) by (nonlinear_arith)
                requires
                    j == (j / n) * n + j % n,
                    j % n == 0,
                    j > 0,
                    n > 0,
            ;
            assert((j / n - 1) * n == (j / n) * n - n) by (nonlinear_arith);
            crate::lemma_row_major_unique((j - 1) / n, (j - 1) % n, j / n - 1, n - 1, n);
        } else {
            crate::lemma_row_major_unique((j - 1) / n, (j - 1) % n, j / n, j % n - 1, n);
        }
    } else {
        assert(j / n == 0);
    }
}

/// Reading the bitmap of a matrix succeeds and gives back its symbol size
/// and its modules, when the leftover modules of sizes that have them hold
/// their fixed pattern.
pub proof fn lemma_bitmap_round_trip(
    m: MatrixMap,
    b: Bitmap,
    r: Result<(MatrixMap, SymbolSize), BitmapConversionError>,
)
    requires
        m.wf(),
        forall|s: SymbolSize| #[trigger] m.fits(s) ==> padding_pattern(m.spec_entries(), s.spec_setup()),
        bitmap_shows(b, m),
        read_matches(b.spec_bits(), b.spec_width(), r),
        accepts_symbols(b.spec_bits(), b.spec_width(), r),
    ensures
        r matches Ok((m2, size)) && m.fits(size) && m2.spec_entries() == m.spec_entries(),
{
    let s = choose|s: SymbolSize| m.fits(s);
    assert(m.fits(s));
    s.lemma_table_consistent();
    let bits = b.spec_bits();
    let w = b.spec_width();
    assert(w == s.spec_setup().width);
    crate::lemma_split_index(bits.len() as int, w);
    assert(bits.len() == w * s.spec_setup().height) by (nonlinear_arith)
        requires
            bits.len() == (bits.len() as int / w) * w + (bits.len() as int) % w,
            (bits.len() as int) % w == 0,
            bits.len() as int / w == s.spec_setup().height,
    ;
    assert forall|k: int| 0 <= k < bits.len() implies #[trigger] bits[k] == symbol_module(
        m.spec_entries(),
        s.spec_setup(),
        k / (s.spec_setup().width as int),
        k % (s.spec_setup().width as int),
    ) by {
        assert(m.fits(s));
    }
    assert(is_symbol_of(bits, m.spec_entries(), s.spec_setup()));
    assert(padding_pattern(m.spec_entries(), s.spec_setup()));
    let (m2, size) = r->Ok_0;
    size.lemma_layout_from_dimensions(s);
    assert(m2.spec_entries() =~= m.spec_entries());
}

/// Whether `size` has `width` columns and `height` rows.
fn has_dimensions(size: SymbolSize, width: usize, height: usize) -> (r: bool)
    ensures
        r == (size.spec_setup().width == width && size.spec_setup().height == height),
{
    proof { size.lemma_table_consistent(); }
    let bs = size.block_setup();
    bs.width == width && bs.height == height
}

/// Whether the modules `from..to` are all dark.
fn all_dark(bits: &[bool], from: usize, to: usize) -> (r: bool)
    requires
        to <= bits@.len(),
    ensures
        r == (forall|k: int| from <= k < to ==> #[trigger] bits@[k]),
{
    let mut k: usize = from;
    while k < to
        invariant
            to <= bits@.len(),
            from <= k,
            forall|q: int| from <= q < k ==> #[trigger] bits@[q],
        decreases to - k,
    {
        if !bits[k] {
            return false;
        }
        k += 1;
    }
    true
}

/// Whether the modules `from..to` alternate dark and light, starting dark.
fn alternating(bits: &[bool], from: usize, to: usize) -> (r: bool)
    requires
        from <= to <= bits@.len(),
    ensures
        r == (forall|k: int| from <= k < to ==> #[trigger] bits@[k] == ((k - from) % 2 == 0)),
{
    let mut k: usize = from;
    while k < to
        invariant
            from <= k <= to <= bits@.len(),
            forall|q: int| from <= q < k ==> #[trigger] bits@[q] == ((q - from) % 2 == 0),
        decreases to - k,
    {
        if bits[k] != ((k - from) % 2 == 0) {
            return false;
        }
        k += 1;
    }
    true
}

/// The value of bit `b` (most significant first) of a byte.
pub open spec fn spec_bit(v: u8, b: int) -> bool {
    (v >> ((7 - b) as u8)) & 1 == 1
}

/// The byte whose bits, most significant first, are `bits`.
pub open spec fn spec_codeword_value(bits: [bool; 8]) -> u8 {
    ((if bits[0] { 128u8 } else { 0u8 }) | (if bits[1] { 64u8 } else { 0u8 }) | (if bits[2] { 32u8 } else { 0u8 })
        | (if bits[3] { 16u8 } else { 0u8 }) | (if bits[4] { 8u8 } else { 0u8 }) | (if bits[5] { 4u8 } else { 0u8 })
        | (if bits[6] { 2u8 } else { 0u8 }) | (if bits[7] { 1u8 } else { 0u8 }))
}

/// The bits of a codeword, most significant first.
pub fn codeword_bits(v: u8) -> (r: [bool; 8])
    ensures
        forall|b: int| 0 <= b < 8 ==> #[trigger] r[b] == spec_bit(v, b),
        spec_codeword_value(r) == v,
{
    let r = [
        (v >> 7u8) & 1 == 1,
        (v >> 6u8) & 1 == 1,
        (v >> 5u8) & 1 == 1,
        (v >> 4u8) & 1 == 1,
        (v >> 3u8) & 1 == 1,
        (v >> 2u8) & 1 == 1,
        (v >> 1u8) & 1 == 1,
        (v >> 0u8) & 1 == 1,
    ];
    proof {
        let b0 = r[0]; let b1 = r[1]; let b2 = r[2]; let b3 = r[3];
        let b4 = r[4]; let b5 = r[5]; let b6 = r[6]; let b7 = r[7];
        assert(((if b0 { 128u8 } else { 0u8 }) | (if b1 { 64u8 } else { 0u8 }) | (if b2 { 32u8 } else { 0u8 })
            | (if b3 { 16u8 } else { 0u8 }) | (if b4 { 8u8 } else { 0u8 }) | (if b5 { 4u8 } else { 0u8 })
            | (if b6 { 2u8 } else { 0u8 }) | (if b7 { 1u8 } else { 0u8 })) == v) by (bit_vector)
            requires
                b0 == ((v >> 7u8) & 1 == 1), b1 == ((v >> 6u8) & 1 == 1), b2 == ((v >> 5u8) & 1 == 1),
                b3 == ((v >> 4u8) & 1 == 1), b4 == ((v >> 3u8) & 1 == 1), b5 == ((v >> 2u8) & 1 == 1),
                b6 == ((v >> 1u8) & 1 == 1), b7 == ((v >> 0u8) & 1 == 1);
    }
    r
}

/// The byte whose bits, most significant first, are `bits`.
pub fn codeword_value(bits: [bool; 8]) -> (r: u8)
    ensures
        r == spec_codeword_value(bits),
{
    (if bits[0] { 128u8 } else { 0u8 }) | (if bits[1] { 64u8 } else { 0u8 }) | (if bits[2] { 32u8 } else { 0u8 })
        | (if bits[3] { 16u8 } else { 0u8 }) | (if bits[4] { 8u8 } else { 0u8 }) | (if bits[5] { 4u8 } else { 0u8 })
        | (if bits[6] { 2u8 } else { 0u8 }) | (if bits[7] { 1u8 } else { 0u8 })
}

/// The index of `(row, column)` in a matrix of `width` columns stored row by row.
fn cell_index(row: usize, column: usize, width: usize, height: usize) -> (r: usize)
    requires
        row < height,
        column < width,
        width <= 144,
        height <= 144,
    ensures
        r == row * width + column,
        r < width * height,
        r < height * width,
{
    proof {
        assert(row * width + column < width * height) by (nonlinear_arith)
            requires row < height, column < width;
        assert(width * height == height * width) by (nonlinear_arith);
        assert(row * width <= 144 * 144) by (nonlinear_arith)
            requires row < height, width <= 144, height <= 144;
    }
    row * width + column
}

/// The module index of `(i, j)` in a `w` by `h` mapping matrix, with the
/// wrapping rules of the placement (ISO/IEC 16022, Annex F); a position that
/// lies outside after the rules is mapped to the first module.
pub open spec fn spec_walk_index(w: int, h: int, i: int, j: int) -> int {
    let i1 = if i < 0 { i + h } else { i };
    let j1 = if i < 0 { j + (4 - ((h + 4) % 8)) } else { j };
    let j2 = if j1 < 0 { j1 + w } else { j1 };
    let i2 = if j1 < 0 { i1 + (4 - ((w + 4) % 8)) } else { i1 };
    let i3 = if i2 >= h { i2 - h } else { i2 };
    if 0 <= i3 < h && 0 <= j2 < w {
        i3 * w + j2
    } else {
        0
    }
}

/// The eight module indices of the positions, most significant bit first.
pub open spec fn spec_walk_shape(w: int, h: int, p: Seq<(int, int)>) -> Seq<usize> {
    Seq::new(8, |b: int| spec_walk_index(w, h, p[b].0, p[b].1) as usize)
}

/// The standard, Utah-shaped codeword at `(i, j)`.
pub open spec fn spec_utah(w: int, h: int, i: int, j: int) -> Seq<usize> {
    spec_walk_shape(w, h, seq![(i - 2, j - 2), (i - 2, j - 1), (i - 1, j - 2), (i - 1, j - 1),
        (i - 1, j), (i, j - 2), (i, j - 1), (i, j)])
}

/// Special corner case 1.
pub open spec fn spec_corner1(w: int, h: int) -> Seq<usize> {
    spec_walk_shape(w, h, seq![(h - 1, 0), (h - 1, 1), (h - 1, 2), (0, w - 2), (0, w - 1),
        (1, w - 1), (2, w - 1), (3, w - 1)])
}

/// Special corner case 2.
pub open spec fn spec_corner2(w: int, h: int) -> Seq<usize> {
    spec_walk_shape(w, h, seq![(h - 3, 0), (h - 2, 0), (h - 1, 0), (0, w - 4), (0, w - 3),
        (0, w - 2), (0, w - 1), (1, w - 1)])
}

/// Special corner case 3.
pub open spec fn spec_corner3(w: int, h: int) -> Seq<usize> {
    spec_walk_shape(w, h, seq![(h - 3, 0), (h - 2, 0), (h - 1, 0), (0, w - 2), (0, w - 1),
        (1, w - 1), (2, w - 1), (3, w - 1)])
}

/// Special corner case 4.
pub open spec fn spec_corner4(w: int, h: int) -> Seq<usize> {
    spec_walk_shape(w, h, seq![(h - 1, 0), (h - 1, w - 1), (0, w - 3), (0, w - 2), (0, w - 1),
        (1, w - 3), (1, w - 2), (1, w - 1)])
}

/// The state of the walk: the modules visited so far and the codewords
/// placed so far, each as its eight module indices.
pub type WalkState = (Seq<bool>, Seq<Seq<usize>>);

/// Whether `k` is one of the eight module indices `p`.
pub open spec fn spec_in_shape(p: Seq<usize>, k: int) -> bool {
    p[0] as int == k || p[1] as int == k || p[2] as int == k || p[3] as int == k || p[4] as int == k
        || p[5] as int == k || p[6] as int == k || p[7] as int == k
}

/// Places a codeword at the module indices `p`.
pub open spec fn spec_visit(st: WalkState, p: Seq<usize>) -> WalkState {
    (Seq::new(st.0.len(), |k: int| st.0[k] || spec_in_shape(p, k)), st.1.push(p))
}

/// The four corner cases that the walk checks at `(i, j)` before a sweep.
pub open spec fn spec_walk_corners(w: int, h: int, i: int, j: int, st: WalkState) -> WalkState {
    let s1 = if i == h && j == 0 { spec_visit(st, spec_corner1(w, h)) } else { st };
    let s2 = if i == h - 2 && j == 0 && w % 4 != 0 { spec_visit(s1, spec_corner2(w, h)) } else { s1 };
    let s3 = if i == h - 2 && j == 0 && w % 8 == 4 { spec_visit(s2, spec_corner3(w, h)) } else { s2 };
    if i == h + 4 && j == 2 && w % 8 == 0 { spec_visit(s3, spec_corner4(w, h)) } else { s3 }
}

/// Whether the module at `(i, j)` is in the matrix and not yet visited.
pub open spec fn spec_walk_free(w: int, h: int, i: int, j: int, st: WalkState) -> bool {
    0 <= i < h && 0 <= j < w && !st.0[i * w + j]
}

/// The sweep up and to the right from `(i, j)`: a codeword at each free
/// position, until the walk leaves the top or the right side.
pub open spec fn spec_walk_up(w: int, h: int, i: int, j: int, st: WalkState) -> (int, int, WalkState)
    decreases i,
{
    let s1 = if spec_walk_free(w, h, i, j, st) { spec_visit(st, spec_utah(w, h, i, j)) } else { st };
    if i - 2 >= 0 && j + 2 < w {
        spec_walk_up(w, h, i - 2, j + 2, s1)
    } else {
        (i - 2, j + 2, s1)
    }
}

/// The sweep down and to the left from `(i, j)`.
pub open spec fn spec_walk_down(w: int, h: int, i: int, j: int, st: WalkState) -> (int, int, WalkState)
    decreases j,
{
    let s1 = if spec_walk_free(w, h, i, j, st) { spec_visit(st, spec_utah(w, h, i, j)) } else { st };
    if i + 2 < h && j - 2 >= 0 {
        spec_walk_down(w, h, i + 2, j - 2, s1)
    } else {
        (i + 2, j - 2, s1)
    }
}

/// The walk from `(i, j)` after `sweeps` pairs of sweeps: corners, a sweep up,
/// a sweep down, until the whole matrix is walked (at most `w + h` pairs).
pub open spec fn spec_walk_from(w: int, h: int, i: int, j: int, sweeps: int, st: WalkState) -> WalkState
    decreases w + h - sweeps,
{
    let s1 = spec_walk_corners(w, h, i, j, st);
    let (i1, j1, s2) = spec_walk_up(w, h, i, j, s1);
    let (i2, j2, s3) = spec_walk_down(w, h, i1 + 1, j1 + 3, s2);
    let (i3, j3) = (i2 + 3, j2 + 1);
    if !(i3 < h || j3 < w) || sweeps + 1 >= w + h || sweeps + 1 < 0 {
        s3
    } else {
        spec_walk_from(w, h, i3, j3, sweeps + 1, s3)
    }
}

/// The placement walk of a `w` by `h` mapping matrix (ISO/IEC 16022,
/// Annex F): the module indices of each codeword in the order of the
/// codewords, most significant bit first.
pub open spec fn spec_walk(w: int, h: int) -> Seq<Seq<usize>> {
    spec_walk_from(w, h, 4, 0, 0, (Seq::new((w * h) as nat, |k: int| false), Seq::empty())).1
}

/// Writes the first `n` bits of `v` to the modules `p`, one after another.
pub open spec fn spec_write_bits(e: Seq<bool>, p: Seq<usize>, v: Seq<bool>, n: int) -> Seq<bool>
    decreases n,
{
    if n <= 0 {
        e
    } else {
        spec_write_bits(e, p, v, n - 1).update(p[n - 1] as int, v[n - 1])
    }
}

/// Writes the bits of codewords `0..n` to their modules of the walk, in order.
pub open spec fn spec_place(e: Seq<bool>, walk: Seq<Seq<usize>>, bits: Seq<Seq<bool>>, n: int) -> Seq<bool>
    decreases n,
{
    if n <= 0 {
        e
    } else {
        spec_write_bits(spec_place(e, walk, bits, n - 1), walk[n - 1], bits[n - 1], 8)
    }
}

/// Writes the bits of as many codewords as the walk has places for.
pub open spec fn spec_placed(e: Seq<bool>, walk: Seq<Seq<usize>>, bits: Seq<Seq<bool>>) -> Seq<bool> {
    spec_place(e, walk, bits, if walk.len() < bits.len() { walk.len() as int } else { bits.len() as int })
}

/// The byte that the modules `p` of `e` hold, most significant bit first.
pub open spec fn spec_read_codeword(e: Seq<bool>, p: Seq<usize>) -> u8 {
    ((if e[p[0] as int] { 128u8 } else { 0u8 }) | (if e[p[1] as int] { 64u8 } else { 0u8 })
        | (if e[p[2] as int] { 32u8 } else { 0u8 }) | (if e[p[3] as int] { 16u8 } else { 0u8 })
        | (if e[p[4] as int] { 8u8 } else { 0u8 }) | (if e[p[5] as int] { 4u8 } else { 0u8 })
        | (if e[p[6] as int] { 2u8 } else { 0u8 }) | (if e[p[7] as int] { 1u8 } else { 0u8 }))
}

/// The bits of a byte, most significant first.
pub open spec fn spec_byte_bits(v: u8) -> Seq<bool> {
    Seq::new(8, |b: int| spec_bit(v, b))
}

/// The modules with the fixed padding pattern written, where the size has one.
pub open spec fn spec_padded(e: Seq<bool>, w: int, h: int, has_padding: bool) -> Seq<bool> {
    if has_padding {
        e.update((h - 2) * w + w - 2, true).update((h - 1) * w + w - 1, true)
    } else {
        e
    }
}

/// The content modules of a symbol of the layout `setup` that holds the
/// codewords `data`: each codeword at its place of the walk, then the
/// padding pattern.
pub open spec fn spec_symbol_modules(data: Seq<u8>, setup: BlockSetup) -> Seq<bool> {
    let w = setup.spec_content_width();
    let h = setup.spec_content_height();
    spec_padded(
        spec_placed(Seq::new((w * h) as nat, |k: int| false), spec_walk(w, h), data.map_values(|v: u8| spec_byte_bits(v))),
        w,
        h,
        content_len(setup) % 8 != 0,
    )
}

/// The codewords that a mapping matrix holds, read along its placement walk;
/// 0 for a codeword that the walk has no place for.
pub open spec fn spec_read_codewords(m: MatrixMap) -> Seq<u8> {
    Seq::new(
        (m.spec_entries().len() / 8) as nat,
        |k: int| if k < m.spec_placement().len() {
            spec_read_codeword(m.spec_entries(), m.spec_placement()[k])
        } else {
            0u8
        },
    )
}

/// The views of placed codewords.
pub open spec fn walk_views(o: Seq<[usize; 8]>) -> Seq<Seq<usize>> {
    o.map_values(|a: [usize; 8]| a@)
}

/// The walk through the matrix that places the codewords (ISO/IEC 16022, Annex F).
struct IndexTraversal {
    width: usize,
    height: usize,
}

/// Bounds of the area of a matrix.
proof fn lemma_area(w: int, h: int)
    requires
        6 <= w <= 144,
        6 <= h <= 144,
    ensures
        36 <= w * h <= 144 * 144,
        w * h == h * w,
{
    assert(36 <= w * h <= 144 * 144) by (nonlinear_arith)
        requires 6 <= w <= 144, 6 <= h <= 144;
    assert(w * h == h * w) by (nonlinear_arith);
}

impl IndexTraversal {
    spec fn wf(&self) -> bool {
        6 <= self.width <= 144 && 6 <= self.height <= 144
    }

    /// The positions of the bits of each codeword, in the order of the codewords.
    ///
    /// The walk sweeps the matrix in diagonals; `i + j` grows by 8 with each
    /// pair of sweeps, so it ends after at most `width + height` of them.
    fn run(&self) -> (r: Vec<[usize; 8]>)
        requires
            self.wf(),
        ensures
            forall|k: int, b: int| 0 <= k < r@.len() && 0 <= b < 8 ==> #[trigger] r@[k][b] < self.width * self.height,
            walk_views(r@) == spec_walk(self.width as int, self.height as int),
    {
        proof { lemma_area(self.width as int, self.height as int); }
        let ghost w = self.width as int;
        let ghost h = self.height as int;
        let nrow: isize = self.height as isize;
        let ncol: isize = self.width as isize;
        let entry_count: usize = self.height * self.width;
        let mut visited: Vec<bool> = vec![false; entry_count];
        let mut out: Vec<[usize; 8]> = Vec::new();
        let limit: usize = self.height + self.width;

        // Start at the right place for the 8th bit of the first character.
        let mut i: isize = 4;
        let mut j: isize = 0;
        let mut sweeps: usize = 0;
        let ghost total = spec_walk_from(w, h, 4, 0, 0, (visited@, walk_views(out@)));
        proof {
            assert(visited@ =~= Seq::new((w * h) as nat, |k: int| false));
            assert(walk_views(out@) =~= Seq::<Seq<usize>>::empty());
        }
        loop
            invariant_except_break
                sweeps < limit,
                spec_walk_from(w, h, i as int, j as int, sweeps as int, (visited@, walk_views(out@))) == total,
            invariant
                w == self.width,
                h == self.height,
                self.wf(),
                nrow == self.height,
                ncol == self.width,
                entry_count == self.height * self.width,
                entry_count == self.width * self.height,
                visited@.len() == entry_count,
                limit == self.height + self.width,
                i + j == 4 + 8 * sweeps,
                i >= 4,
                j >= -1,
                i >= nrow || j <= 0,
                sweeps <= limit,
                forall|k: int, b: int| 0 <= k < out@.len() && 0 <= b < 8 ==> #[trigger] out@[k][b] < entry_count,
            ensures
                walk_views(out@) == total.1,
            decreases limit - sweeps,
        {
            let ghost st0 = (visited@, walk_views(out@));
            let ghost i0 = i as int;
            let ghost j0 = j as int;
            // The special corner cases come first.
            if i == nrow && j == 0 {
                visit(&mut visited, &mut out, self.corner1());
            }
            if i == nrow - 2 && j == 0 && ncol % 4 != 0 {
                visit(&mut visited, &mut out, self.corner2());
            }
            if i == nrow - 2 && j == 0 && ncol % 8 == 4 {
                visit(&mut visited, &mut out, self.corner3());
            }
            if i == nrow + 4 && j == 2 && ncol % 8 == 0 {
                visit(&mut visited, &mut out, self.corner4());
            }
            let ghost st1 = (visited@, walk_views(out@));
            assert(st1 == spec_walk_corners(w, h, i0, j0, st0));
            let ghost up = spec_walk_up(w, h, i as int, j as int, st1);
            // Sweep up diagonally.
            loop
                invariant_except_break
                    i >= 0,
                    i >= nrow || j < ncol,
                    spec_walk_up(w, h, i as int, j as int, (visited@, walk_views(out@))) == up,
                invariant
                    w == self.width,
                    h == self.height,
                    self.wf(),
                    nrow == self.height,
                    ncol == self.width,
                    entry_count == self.height * self.width,
                    entry_count == self.width * self.height,
                    visited@.len() == entry_count,
                    sweeps < limit,
                    limit == self.height + self.width,
                    i + j == 4 + 8 * sweeps,
                    i >= -2,
                    j >= -1,
                    forall|k: int, b: int| 0 <= k < out@.len() && 0 <= b < 8 ==> #[trigger] out@[k][b] < entry_count,
                ensures
                    (i as int, j as int, (visited@, walk_views(out@))) == up,
                    i + j == 4 + 8 * sweeps,
                    -2 <= i,
                    j >= 1,
                    i < 0 || j >= ncol,
                    visited@.len() == entry_count,
                    forall|k: int, b: int| 0 <= k < out@.len() && 0 <= b < 8 ==> #[trigger] out@[k][b] < entry_count,
                decreases i + 2,
            {
                if i < nrow && j >= 0 && !self.was_visited(&visited, i, j) {
                    visit(&mut visited, &mut out, self.utah(i, j));
                }
                i -= 2;
                j += 2;
                if !(i >= 0 && j < ncol) {
                    break;
                }
            }
            i += 1;
            j += 3;
            let ghost st2 = (visited@, walk_views(out@));
            let ghost down = spec_walk_down(w, h, i as int, j as int, st2);

            // Sweep down diagonally.
            loop
                invariant_except_break
                    j >= 0,
                    j >= ncol || i < nrow,
                    spec_walk_down(w, h, i as int, j as int, (visited@, walk_views(out@))) == down,
                invariant
                    w == self.width,
                    h == self.height,
                    self.wf(),
                    nrow == self.height,
                    ncol == self.width,
                    entry_count == self.height * self.width,
                    entry_count == self.width * self.height,
                    visited@.len() == entry_count,
                    sweeps < limit,
                    limit == self.height + self.width,
                    i + j == 8 + 8 * sweeps,
                    i >= -1,
                    j >= -2,
                    forall|k: int, b: int| 0 <= k < out@.len() && 0 <= b < 8 ==> #[trigger] out@[k][b] < entry_count,
                ensures
                    (i as int, j as int, (visited@, walk_views(out@))) == down,
                    i + j == 8 + 8 * sweeps,
                    i >= 1,
                    j >= -2,
                    i >= nrow || j < 0,
                    visited@.len() == entry_count,
                    forall|k: int, b: int| 0 <= k < out@.len() && 0 <= b < 8 ==> #[trigger] out@[k][b] < entry_count,
                decreases j + 2,
            {
                if i >= 0 && j < ncol && !self.was_visited(&visited, i, j) {
                    visit(&mut visited, &mut out, self.utah(i, j));
                }
                i += 2;
                j -= 2;
                if !(i < nrow && j >= 0) {
                    break;
                }
            }
            i += 3;
            j += 1;
            sweeps += 1;
            proof {
                assert(spec_walk_from(w, h, i0, j0, sweeps - 1, st0) == if !(i < h || j < w) || sweeps >= w + h {
                    (visited@, walk_views(out@))
                } else {
                    spec_walk_from(w, h, i as int, j as int, sweeps as int, (visited@, walk_views(out@)))
                });
            }

            // Go on until the whole map has been walked.
            if !(i < nrow || j < ncol) || sweeps >= limit {
                break;
            }
        }
        proof {
            assert(total.1 == spec_walk(w, h));
        }
        out
    }

    /// Whether the module at `(row, column)` was visited.
    fn was_visited(&self, visited: &Vec<bool>, row: isize, column: isize) -> (r: bool)
        requires
            self.wf(),
            visited@.len() == self.width * self.height,
            0 <= row < self.height,
            0 <= column < self.width,
        ensures
            r == visited@[row * self.width + column],
    {
        let index = cell_index(row as usize, column as usize, self.width, self.height);
        visited[index]
    }

    /// The index of the module at `(i, j)`, with the wrapping rules of the placement.
    ///
    /// Each position that the placement asks for lies in the matrix after
    /// these rules; any other is mapped to the first module.
    fn idx(&self, i: isize, j: isize) -> (r: usize)
        requires
            self.wf(),
            -10 <= i <= 4000,
            -10 <= j <= 4000,
        ensures
            r < self.width * self.height,
            r == spec_walk_index(self.width as int, self.height as int, i as int, j as int),
    {
        let h: isize = self.height as isize;
        let w: isize = self.width as isize;
        let mut i = i;
        let mut j = j;
        if i < 0 {
            i = i + h;
            j = j + (4 - ((h + 4) % 8));
        }
        if j < 0 {
            j = j + w;
            i = i + (4 - ((w + 4) % 8));
        }
        // This is needed for the rectangular extension sizes.
        if i >= h {
            i = i - h;
        }
        proof { lemma_area(self.width as int, self.height as int); }
        if !(0 <= i && i < h && 0 <= j && j < w) {
            return 0;
        }
        cell_index(i as usize, j as usize, self.width, self.height)
    }

    /// The indices for the standard, Utah-shaped codeword placed at `(i, j)`.
    fn utah(&self, i: isize, j: isize) -> (r: [usize; 8])
        requires
            self.wf(),
            0 <= i <= 4000,
            0 <= j <= 4000,
        ensures
            forall|b: int| 0 <= b < 8 ==> #[trigger] r[b] < self.width * self.height,
            r@ == spec_utah(self.width as int, self.height as int, i as int, j as int),
    {
        let r = [
            self.idx(i - 2, j - 2),
            self.idx(i - 2, j - 1),
            self.idx(i - 1, j - 2),
            self.idx(i - 1, j - 1),
            self.idx(i - 1, j),
            self.idx(i, j - 2),
            self.idx(i, j - 1),
            self.idx(i, j),
        ];
        proof { assert(r@ =~= spec_utah(self.width as int, self.height as int, i as int, j as int)); }
        r
    }

    /// The dimensions as signed integers.
    fn dimensions(&self) -> (r: (isize, isize))
        requires
            self.wf(),
        ensures
            r.0 == self.height,
            r.1 == self.width,
    {
        (self.height as isize, self.width as isize)
    }

    /// Special corner case 1.
    fn corner1(&self) -> (r: [usize; 8])
        requires
            self.wf(),
        ensures
            forall|b: int| 0 <= b < 8 ==> #[trigger] r[b] < self.width * self.height,
            r@ == spec_corner1(self.width as int, self.height as int),
    {
        let (h, w) = self.dimensions();
        let r = [
            self.idx(h - 1, 0),
            self.idx(h - 1, 1),
            self.idx(h - 1, 2),
            self.idx(0, w - 2),
            self.idx(0, w - 1),
            self.idx(1, w - 1),
            self.idx(2, w - 1),
            self.idx(3, w - 1),
        ];
        proof { assert(r@ =~= spec_corner1(self.width as int, self.height as int)); }
        r
    }

    /// Special corner case 2.
    fn corner2(&self) -> (r: [usize; 8])
        requires
            self.wf(),
        ensures
            forall|b: int| 0 <= b < 8 ==> #[trigger] r[b] < self.width * self.height,
            r@ == spec_corner2(self.width as int, self.height as int),
    {
        let (h, w) = self.dimensions();
        let r = [
            self.idx(h - 3, 0),
            self.idx(h - 2, 0),
            self.idx(h - 1, 0),
            self.idx(0, w - 4),
            self.idx(0, w - 3),
            self.idx(0, w - 2),
            self.idx(0, w - 1),
            self.idx(1, w - 1),
        ];
        proof { assert(r@ =~= spec_corner2(self.width as int, self.height as int)); }
        r
    }

    /// Special corner case 3.
    fn corner3(&self) -> (r: [usize; 8])
        requires
            self.wf(),
        ensures
            forall|b: int| 0 <= b < 8 ==> #[trigger] r[b] < self.width * self.height,
            r@ == spec_corner3(self.width as int, self.height as int),
    {
        let (h, w) = self.dimensions();
        let r = [
            self.idx(h - 3, 0),
            self.idx(h - 2, 0),
            self.idx(h - 1, 0),
            self.idx(0, w - 2),
            self.idx(0, w - 1),
            self.idx(1, w - 1),
            self.idx(2, w - 1),
            self.idx(3, w - 1),
        ];
        proof { assert(r@ =~= spec_corner3(self.width as int, self.height as int)); }
        r
    }

    /// Special corner case 4.
    fn corner4(&self) -> (r: [usize; 8])
        requires
            self.wf(),
        ensures
            forall|b: int| 0 <= b < 8 ==> #[trigger] r[b] < self.width * self.height,
            r@ == spec_corner4(self.width as int, self.height as int),
    {
        let (h, w) = self.dimensions();
        let r = [
            self.idx(h - 1, 0),
            self.idx(h - 1, w - 1),
            self.idx(0, w - 3),
            self.idx(0, w - 2),
            self.idx(0, w - 1),
            self.idx(1, w - 3),
            self.idx(1, w - 2),
            self.idx(1, w - 1),
        ];
        proof { assert(r@ =~= spec_corner4(self.width as int, self.height as int)); }
        r
    }
}

/// Marks the positions of a codeword as visited and records them.
fn visit(visited: &mut Vec<bool>, out: &mut Vec<[usize; 8]>, indices: [usize; 8])
    requires
        forall|b: int| 0 <= b < 8 ==> #[trigger] indices[b] < old(visited)@.len(),
    ensures
        final(visited)@.len() == old(visited)@.len(),
        final(out)@ == old(out)@.push(indices),
        final(visited)@ == spec_visit((old(visited)@, walk_views(old(out)@)), indices@).0,
        walk_views(final(out)@) == spec_visit((old(visited)@, walk_views(old(out)@)), indices@).1,
{
    let mut b: usize = 0;
    while b < 8
        invariant
            visited@.len() == old(visited)@.len(),
            forall|k: int| 0 <= k < 8 ==> #[trigger] indices[k] < visited@.len(),
            b <= 8,
            forall|k: int|
                0 <= k < visited@.len() ==> #[trigger] visited@[k] == (old(visited)@[k]
                    || exists|t: int| 0 <= t < b && #[trigger] indices@[t] as int == k),
        decreases 8 - b,
    {
        let ghost before = visited@;
        visited.set(indices[b], true);
        proof {
            assert forall|k: int| 0 <= k < visited@.len() implies #[trigger] visited@[k] == (old(visited)@[k]
                || exists|t: int| 0 <= t < b + 1 && #[trigger] indices@[t] as int == k) by {
                if indices@[b as int] as int == k {
                    assert(indices@[b as int] as int == k);
                } else {
                    assert(visited@[k] == before[k]);
                    if exists|t: int| 0 <= t < b + 1 && #[trigger] indices@[t] as int == k {
                        let t = choose|t: int| 0 <= t < b + 1 && #[trigger] indices@[t] as int == k;
                        assert(t < b);
                    }
                }
            }
        }
        b += 1;
    }
    let ghost o = out@;
    out.push(indices);
    proof {
        assert forall|k: int| 0 <= k < visited@.len() implies (exists|t: int| 0 <= t < 8 && #[trigger] indices@[t] as int == k)
            == spec_in_shape(indices@, k) by {
            if exists|t: int| 0 <= t < 8 && #[trigger] indices@[t] as int == k {
                let t = choose|t: int| 0 <= t < 8 && #[trigger] indices@[t] as int == k;
                assert(t == 0 || t == 1 || t == 2 || t == 3 || t == 4 || t == 5 || t == 6 || t == 7);
            }
            if spec_in_shape(indices@, k) {
                if indices@[0] as int == k { assert(indices@[0] as int == k); }
                else if indices@[1] as int == k { assert(indices@[1] as int == k); }
                else if indices@[2] as int == k { assert(indices@[2] as int == k); }
                else if indices@[3] as int == k { assert(indices@[3] as int == k); }
                else if indices@[4] as int == k { assert(indices@[4] as int == k); }
                else if indices@[5] as int == k { assert(indices@[5] as int == k); }
                else if indices@[6] as int == k { assert(indices@[6] as int == k); }
                else { assert(indices@[7] as int == k); }
            }
        }
        assert(visited@ =~= spec_visit((old(visited)@, walk_views(old(out)@)), indices@).0);
        assert(walk_views(out@) =~= walk_views(o).push(indices@));
    }
}

/// An abstract bitmap, row by row.
///
/// It has helpers to render its contents: [pixels()](Self::pixels) for pixel
/// like targets and [path()](Self::path) for vector formats.
#[derive(Debug, Clone)]
pub struct Bitmap {
    width: usize,
    bits: Vec<bool>,
}

impl Bitmap {
    /// Number of columns.
    pub closed spec fn spec_width(&self) -> int {
        self.width as int
    }

    /// The modules, row by row.
    pub closed spec fn spec_bits(&self) -> Seq<bool> {
        self.bits@
    }

    /// Number of rows.
    pub open spec fn spec_height(&self) -> int {
        (self.spec_bits().len() as int) / self.spec_width()
    }

    /// The bounds that every bitmap meets: a positive width that divides the
    /// number of modules, and a graph of module corners whose size fits the
    /// target architecture.
    pub open spec fn wf(&self) -> bool {
        &&& self.spec_width() > 0
        &&& (self.spec_bits().len() as int) % self.spec_width() == 0
        &&& (self.spec_width() + 1) * (self.spec_height() + 1) <= usize::MAX
        &&& self.spec_width() + 1 <= isize::MAX
        &&& self.spec_height() + 1 <= isize::MAX
    }

    /// A new bitmap of `width` columns from its modules, row by row.
    ///
    /// It makes the rendering helpers available for other symbologies too.
    ///
    /// # Errors
    ///
    /// Fails when the width is zero, when the data does not fit the width, or
    /// when the dimensions exceed what the target architecture can safely represent.
    pub fn new(bits: Vec<bool>, width: usize) -> (r: Result<Bitmap, BitmapConversionError>)
        ensures
            width == 0 ==> r == Err::<Bitmap, BitmapConversionError>(BitmapConversionError::ZeroWidth),
            width > 0 && (bits@.len() as int) % (width as int) != 0
                ==> r == Err::<Bitmap, BitmapConversionError>(BitmapConversionError::DataSize),
            width > 0 && (bits@.len() as int) % (width as int) == 0 && !((width + 1) * ((bits@.len() as int) / (width as int) + 1) <= usize::MAX
                && width + 1 <= isize::MAX && (bits@.len() as int) / (width as int) + 1 <= isize::MAX)
                ==> r == Err::<Bitmap, BitmapConversionError>(BitmapConversionError::ArithmeticOverflow),
            r matches Ok(b) ==> b.wf() && b.spec_bits() == bits@ && b.spec_width() == width,
            width > 0 && (bits@.len() as int) % (width as int) == 0 && (width + 1) * ((bits@.len() as int) / (width as int) + 1) <= usize::MAX
                && width + 1 <= isize::MAX && (bits@.len() as int) / (width as int) + 1 <= isize::MAX ==> r is Ok,
    {
        if width == 0 {
            return Err(BitmapConversionError::ZeroWidth);
        }
        if bits.len() % width != 0 {
            return Err(BitmapConversionError::DataSize);
        }
        let height = bits.len() / width;
        let graph_width = match width.checked_add(1) {
            Some(v) => v,
            None => return Err(BitmapConversionError::ArithmeticOverflow),
        };
        let graph_height = match height.checked_add(1) {
            Some(v) => v,
            None => return Err(BitmapConversionError::ArithmeticOverflow),
        };
        if graph_width.checked_mul(graph_height).is_none() {
            return Err(BitmapConversionError::ArithmeticOverflow);
        }
        if graph_width > isize::MAX as usize || graph_height > isize::MAX as usize {
            return Err(BitmapConversionError::ArithmeticOverflow);
        }
        Ok(Bitmap { width, bits })
    }

    /// Width of the bitmap, quiet zone excluded.
    pub fn width(&self) -> (r: usize)
        ensures
            r == self.spec_width(),
    {
        self.width
    }

    /// Height of the bitmap, quiet zone excluded.
    pub fn height(&self) -> (r: usize)
        requires
            self.wf(),
        ensures
            r == self.spec_height(),
    {
        self.bits.len() / self.width
    }

    /// The modules, row by row.
    pub fn bits(&self) -> (r: &[bool])
        ensures
            r@ == self.spec_bits(),
    {
        self.bits.as_slice()
    }
}

/// Whether the module at row `i` and column `j` of a bitmap framed by one
/// light module on each side is dark.
pub open spec fn framed_module(bits: Seq<bool>, width: int, height: int, i: int, j: int) -> bool {
    1 <= i < 1 + height && 1 <= j < 1 + width && bits[(i - 1) * width + (j - 1)]
}

/// The block character that shows two modules, one above the other.
pub open spec fn block_char(upper: bool, lower: bool) -> char {
    if upper && lower {
        '\u{2588}'
    } else if upper {
        '\u{2580}'
    } else if lower {
        '\u{2584}'
    } else {
        ' '
    }
}

/// The line of characters that shows the framed rows `i` and `i + 1`.
pub open spec fn unicode_line(bits: Seq<bool>, width: int, height: int, i: int) -> Seq<char> {
    Seq::new((width + 2) as nat, |j: int| block_char(
        framed_module(bits, width, height, i, j),
        framed_module(bits, width, height, i + 1, j),
    )).push('\n')
}

/// The first `count` lines of the picture.
pub open spec fn unicode_lines(bits: Seq<bool>, width: int, height: int, count: int) -> Seq<char>
    decreases count,
{
    if count <= 0 {
        seq![]
    } else {
        unicode_lines(bits, width, height, count - 1) + unicode_line(bits, width, height, 2 * (count - 1))
    }
}

/// The coordinates `(x, y)` of the dark modules among the first `n`, in order.
pub open spec fn spec_pixels(bits: Seq<bool>, width: int, n: int) -> Seq<(usize, usize)>
    decreases n,
{
    if n <= 0 {
        seq![]
    } else {
        spec_pixels(bits, width, n - 1) + (if bits[n - 1] {
            seq![(((n - 1) % width) as usize, ((n - 1) / width) as usize)]
        } else {
            seq![]
        })
    }
}

/// Index of `(row, column)` in a bitmap of `width` columns and `height` rows.
fn bitmap_index(row: usize, column: usize, width: usize, height: usize) -> (r: usize)
    requires
        row < height,
        column < width,
        (width + 1) * (height + 1) <= usize::MAX,
    ensures
        r == row * width + column,
        r < width * height,
{
    proof {
        assert(row * width + column < width * height) by (nonlinear_arith)
            requires row < height, column < width;
        assert(width * height <= (width + 1) * (height + 1)) by (nonlinear_arith);
    }
    row * width + column
}

impl Bitmap {
    /// The module at framed row `i` and column `j`: light outside the bitmap.
    fn framed(&self, i: usize, j: usize) -> (r: bool)
        requires
            self.wf(),
        ensures
            r == framed_module(self.bits@, self.width as int, self.spec_height(), i as int, j as int),
    {
        let height = self.height();
        if i < 1 || i >= 1 + height || j < 1 || j >= 1 + self.width {
            false
        } else {
            proof {
                vstd::arithmetic::div_mod::lemma_fundamental_div_mod(self.bits@.len() as int, self.width as int);
                assert(self.bits@.len() == self.width * height) by (nonlinear_arith)
                    requires self.bits@.len() == self.width * ((self.bits@.len() as int) / (self.width as int))
                        + (self.bits@.len() as int) % (self.width as int),
                        (self.bits@.len() as int) % (self.width as int) == 0,
                        height == (self.bits@.len() as int) / (self.width as int);
            }
            self.bits[bitmap_index(i - 1, j - 1, self.width, height)]
        }
    }

    /// The Unicode representation ("ASCII art") of the bitmap, with a light
    /// frame of one module; each character shows two rows.
    ///
    /// This is a demonstration: the picture looks wrong with a wrong line
    /// height or a proportional font.
    pub fn unicode(&self) -> (r: String)
        requires
            self.wf(),
        ensures
            r@ == unicode_lines(self.spec_bits(), self.spec_width(), self.spec_height(), (self.spec_height() + 3) / 2),
    {
        let height = self.height();
        let width = self.width;
        let mut out = String::new();
        let mut i: usize = 0;
        let mut line: usize = 0;
        while i < height + 2
            invariant
                self.wf(),
                height == self.spec_height(),
                width == self.width,
                i == 2 * line,
                i <= height + 3,
                out@ == unicode_lines(self.bits@, width as int, height as int, line as int),
            decreases height + 3 - i,
        {
            let mut j: usize = 0;
            while j < width + 2
                invariant
                    self.wf(),
                    height == self.spec_height(),
                    width == self.width,
                    i == 2 * line,
                    i < height + 2,
                    j <= width + 2,
                    out@ == unicode_lines(self.bits@, width as int, height as int, line as int)
                        + unicode_line(self.bits@, width as int, height as int, i as int).subrange(0, j as int),
                decreases width + 2 - j,
            {
                let upper = self.framed(i, j);
                let lower = self.framed(i + 1, j);
                let c = if upper && lower {
                    '\u{2588}'
                } else if upper {
                    '\u{2580}'
                } else if lower {
                    '\u{2584}'
                } else {
                    ' '
                };
                let ghost before = out@;
                string_push(&mut out, c);
                proof {
                    let l = unicode_line(self.bits@, width as int, height as int, i as int);
                    assert(l.subrange(0, j + 1) =~= l.subrange(0, j as int).push(c));
                }
                j += 1;
            }
            string_push(&mut out, '\n');
            proof {
                let l = unicode_line(self.bits@, width as int, height as int, i as int);
                assert(l.subrange(0, (width + 2) as int).push('\n') =~= l);
            }
            i += 2;
            line += 1;
        }
        out
    }

    /// The coordinates `(x, y)` of the dark modules, x before y, ordered by
    /// rows and within a row by columns.
    ///
    /// `(0, 0)` is the top left corner; the quiet zone is not included in
    /// the coordinates but must be added when rendering.
    pub fn pixels(&self) -> (r: Vec<(usize, usize)>)
        requires
            self.wf(),
        ensures
            r@ == spec_pixels(self.spec_bits(), self.spec_width(), self.spec_bits().len() as int),
    {
        let w = self.width;
        let mut out: Vec<(usize, usize)> = Vec::new();
        let mut i: usize = 0;
        while i < self.bits.len()
            invariant
                w == self.width,
                w > 0,
                i <= self.bits@.len(),
                out@ == spec_pixels(self.bits@, w as int, i as int),
            decreases self.bits@.len() - i,
        {
            if self.bits[i] {
                out.push((i % w, i / w));
            }
            proof {
                if self.bits@[i as int] {
                    assert(out@ =~= spec_pixels(self.bits@, w as int, i as int) + seq![((i % w) as usize, (i / w) as usize)]);
                } else {
                    assert(out@ =~= spec_pixels(self.bits@, w as int, i as int) + Seq::<(usize, usize)>::empty());
                }
            }
            i += 1;
        }
        out
    }
}

/// A horizontal run of dark modules: `width` modules from column `x` in row `y`.
#[derive(Debug, Clone, Copy, PartialEq, Eq, Structural)]
pub struct ModuleRun {
    x: usize,
    y: usize,
    width: usize,
}

impl ModuleRun {
    /// The column of the first module.
    pub closed spec fn spec_x(&self) -> usize {
        self.x
    }

    /// The row.
    pub closed spec fn spec_y(&self) -> usize {
        self.y
    }

    /// The number of modules.
    pub closed spec fn spec_width(&self) -> usize {
        self.width
    }

    /// The column of the first module.
    pub fn x(&self) -> (r: usize)
        ensures
            r == self.spec_x(),
    {
        self.x
    }

    /// The row.
    pub fn y(&self) -> (r: usize)
        ensures
            r == self.spec_y(),
    {
        self.y
    }

    /// The number of modules.
    pub fn width(&self) -> (r: usize)
        ensures
            r == self.spec_width(),
    {
        self.width
    }

    /// The run of `width` modules from column `x` in row `y`.
    pub closed spec fn spec_new(x: int, y: int, width: int) -> ModuleRun {
        ModuleRun { x: x as usize, y: y as usize, width: width as usize }
    }

    /// A run has the position and width it was made with.
    pub proof fn lemma_new(x: int, y: int, width: int)
        requires
            0 <= x <= usize::MAX,
            0 <= y <= usize::MAX,
            0 <= width <= usize::MAX,
        ensures
            ModuleRun::spec_new(x, y, width).spec_x() == x,
            ModuleRun::spec_new(x, y, width).spec_y() == y,
            ModuleRun::spec_new(x, y, width).spec_width() == width,
    {
    }
}

/// Whether the dark module `p` starts a run: it is dark and the module to
/// its left is light or outside the row.
pub open spec fn run_starts_at(bits: Seq<bool>, width: int, p: int) -> bool {
    bits[p] && (p % width == 0 || !bits[p - 1])
}

/// The number of dark modules from `p` on in its row.
pub open spec fn run_length(bits: Seq<bool>, width: int, p: int) -> int
    decreases bits.len() - p,
{
    if 0 <= p < bits.len() && bits[p] {
        if p + 1 < bits.len() && (p + 1) % width != 0 {
            1 + run_length(bits, width, p + 1)
        } else {
            1
        }
    } else {
        0
    }
}

/// The runs of dark modules that start among the first `n` modules, in order.
pub open spec fn spec_dark_runs(bits: Seq<bool>, width: int, n: int) -> Seq<ModuleRun>
    decreases n,
{
    if n <= 0 {
        seq![]
    } else {
        spec_dark_runs(bits, width, n - 1) + (if run_starts_at(bits, width, n - 1) {
            seq![ModuleRun::spec_new((n - 1) % width, (n - 1) / width, run_length(bits, width, n - 1))]
        } else {
            seq![]
        })
    }
}

impl Bitmap {
    /// `(width, height)` of the bitmap, quiet zone excluded.
    pub fn dimensions(&self) -> (r: (usize, usize))
        requires
            self.wf(),
        ensures
            r.0 == self.spec_width(),
            r.1 == self.spec_height(),
    {
        (self.width, self.height())
    }

    /// The horizontal runs of dark modules, row by row and from left to right.
    pub fn dark_runs(&self) -> (r: Vec<ModuleRun>)
        requires
            self.wf(),
        ensures
            r@ == spec_dark_runs(self.spec_bits(), self.spec_width(), self.spec_bits().len() as int),
            forall|k: int| 0 <= k < r@.len() ==> 1 <= (#[trigger] r@[k]).spec_width() && r@[k].spec_x()
                + r@[k].spec_width() <= self.spec_width(),
            forall|p: int| 0 <= p < self.spec_bits().len() && #[trigger] self.spec_bits()[p] ==> exists|k: int|
                0 <= k < r@.len() && (#[trigger] r@[k]).spec_y() == p / self.spec_width() && r@[k].spec_x()
                    <= p % self.spec_width() < r@[k].spec_x() + r@[k].spec_width(),
    {
        let len = self.bits.len();
        proof { lemma_dark_runs_cover(self.spec_bits(), self.spec_width()); }
        let w = self.width;
        let n = self.bits.len();
        let mut out: Vec<ModuleRun> = Vec::new();
        let mut p: usize = 0;
        while p < n
            invariant
                w == self.width,
                w > 0,
                n == self.bits@.len(),
                p <= n,
                out@ == spec_dark_runs(self.bits@, w as int, p as int),
            decreases n - p,
        {
            proof {
                if p == 0 {
                    vstd::arithmetic::div_mod::lemma_small_mod(0, w as nat);
                }
            }
            let starts = self.bits[p] && (p % w == 0 || !self.bits[p - 1]);
            if starts {
                // Measure the run from its end backwards.
                let mut q: usize = p + 1;
                while q < n && q % w != 0 && self.bits[q]
                    invariant
                        w > 0,
                        n == self.bits@.len(),
                        p < q <= n,
                        self.bits@[p as int],
                        run_length(self.bits@, w as int, p as int) == (q - p) + run_length(self.bits@, w as int, q as int)
                            - (if q < n && q % w != 0 && self.bits@[q as int] { 0int } else { run_length(self.bits@, w as int, q as int) }),
                    decreases n - q,
                {
                    q += 1;
                }
                out.push(ModuleRun { x: p % w, y: p / w, width: q - p });
            }
            proof {
                assert(out@ =~= spec_dark_runs(self.bits@, w as int, p + 1));
            }
            p += 1;
        }
        out
    }
}

} // verus!


verus! {

/// The module index of row `r`, column `c` of a `w`-column mapping matrix.
pub open spec fn cell_at(w: int, r: int, c: int) -> usize {
    (r * w + c) as usize
}

/// The shapes of the placement (ISO/IEC 16022, Annex F), most significant
/// bit first, in a mapping matrix of `w` columns and `h` rows: the standard
/// Utah shape at `(i, j)` away from the edges, and the four corner shapes.
pub proof fn lemma_placement_shapes(w: int, h: int, i: int, j: int)
    requires
        6 <= w <= 144,
        6 <= h <= 144,
    ensures
        2 <= i < h && 2 <= j < w ==> spec_utah(w, h, i, j) == seq![cell_at(w, i - 2, j - 2),
            cell_at(w, i - 2, j - 1), cell_at(w, i - 1, j - 2), cell_at(w, i - 1, j - 1),
            cell_at(w, i - 1, j), cell_at(w, i, j - 2), cell_at(w, i, j - 1), cell_at(w, i, j)],
        spec_corner1(w, h) == seq![cell_at(w, h - 1, 0), cell_at(w, h - 1, 1), cell_at(w, h - 1, 2),
            cell_at(w, 0, w - 2), cell_at(w, 0, w - 1), cell_at(w, 1, w - 1), cell_at(w, 2, w - 1),
            cell_at(w, 3, w - 1)],
        spec_corner2(w, h) == seq![cell_at(w, h - 3, 0), cell_at(w, h - 2, 0), cell_at(w, h - 1, 0),
            cell_at(w, 0, w - 4), cell_at(w, 0, w - 3), cell_at(w, 0, w - 2), cell_at(w, 0, w - 1),
            cell_at(w, 1, w - 1)],
        spec_corner3(w, h) == seq![cell_at(w, h - 3, 0), cell_at(w, h - 2, 0), cell_at(w, h - 1, 0),
            cell_at(w, 0, w - 2), cell_at(w, 0, w - 1), cell_at(w, 1, w - 1), cell_at(w, 2, w - 1),
            cell_at(w, 3, w - 1)],
        spec_corner4(w, h) == seq![cell_at(w, h - 1, 0), cell_at(w, h - 1, w - 1), cell_at(w, 0, w - 3),
            cell_at(w, 0, w - 2), cell_at(w, 0, w - 1), cell_at(w, 1, w - 3), cell_at(w, 1, w - 2),
            cell_at(w, 1, w - 1)],
{
    if 2 <= i < h && 2 <= j < w {
        assert(spec_utah(w, h, i, j) =~= seq![cell_at(w, i - 2, j - 2),
            cell_at(w, i - 2, j - 1), cell_at(w, i - 1, j - 2), cell_at(w, i - 1, j - 1),
            cell_at(w, i - 1, j), cell_at(w, i, j - 2), cell_at(w, i, j - 1), cell_at(w, i, j)]);
    }
    assert(spec_corner1(w, h) =~= seq![cell_at(w, h - 1, 0), cell_at(w, h - 1, 1), cell_at(w, h - 1, 2),
        cell_at(w, 0, w - 2), cell_at(w, 0, w - 1), cell_at(w, 1, w - 1), cell_at(w, 2, w - 1),
        cell_at(w, 3, w - 1)]);
    assert(spec_corner2(w, h) =~= seq![cell_at(w, h - 3, 0), cell_at(w, h - 2, 0), cell_at(w, h - 1, 0),
        cell_at(w, 0, w - 4), cell_at(w, 0, w - 3), cell_at(w, 0, w - 2), cell_at(w, 0, w - 1),
        cell_at(w, 1, w - 1)]);
    assert(spec_corner3(w, h) =~= seq![cell_at(w, h - 3, 0), cell_at(w, h - 2, 0), cell_at(w, h - 1, 0),
        cell_at(w, 0, w - 2), cell_at(w, 0, w - 1), cell_at(w, 1, w - 1), cell_at(w, 2, w - 1),
        cell_at(w, 3, w - 1)]);
    assert(spec_corner4(w, h) =~= seq![cell_at(w, h - 1, 0), cell_at(w, h - 1, w - 1), cell_at(w, 0, w - 3),
        cell_at(w, 0, w - 2), cell_at(w, 0, w - 1), cell_at(w, 1, w - 3), cell_at(w, 1, w - 2),
        cell_at(w, 1, w - 1)]);
}

/// Where the walk meets the corner case 1 (at row `h`, column 0), it places
/// the next codeword with its most significant bit at `(h - 1, 0)` and its
/// least significant bit at `(3, w - 1)`, and places no other codeword there.
pub proof fn lemma_walk_corner1(w: int, h: int, st: WalkState)
    requires
        6 <= w <= 144,
        6 <= h <= 144,
    ensures
        ({
            let s = spec_walk_corners(w, h, h, 0, st);
            &&& s.1.len() == st.1.len() + 1
            &&& s.1[st.1.len() as int] == seq![cell_at(w, h - 1, 0), cell_at(w, h - 1, 1),
                cell_at(w, h - 1, 2), cell_at(w, 0, w - 2), cell_at(w, 0, w - 1), cell_at(w, 1, w - 1),
                cell_at(w, 2, w - 1), cell_at(w, 3, w - 1)]
        }),
{
    lemma_placement_shapes(w, h, 0, 0);
}

} // verus!

verus! {

/// Within a row, the next module's column is one more, unless the next
/// module starts a new row.
proof fn lemma_next_column(p: int, w: int)
    requires
        0 <= p,
        w > 0,
    ensures
        (p + 1) % w != 0 ==> (p + 1) % w == p % w + 1 && (p + 1) / w == p / w,
        p % w + 1 < w ==> (p + 1) % w == p % w + 1 && (p + 1) / w == p / w,
{
    vstd::arithmetic::div_mod::lemma_fundamental_div_mod(p, w);
    assert((p / w) * w == w * (p / w)) by (nonlinear_arith);
    assert((p / w + 1) * w == w * (p / w) + w) by (nonlinear_arith);
    if p % w + 1 < w {
        vstd::arithmetic::div_mod::lemma_fundamental_div_mod_converse(p + 1, w, p / w, p % w + 1);
    } else {
        vstd::arithmetic::div_mod::lemma_fundamental_div_mod_converse(p + 1, w, p / w + 1, 0);
    }
}

/// A run from a dark module stays in its row and is dark throughout: it
/// has at least one module, it ends at or before the end of the row, and
/// every module of it is dark.
pub proof fn lemma_run_length_in_row(bits: Seq<bool>, w: int, p: int)
    requires
        w > 0,
        0 <= p < bits.len(),
        bits[p],
    ensures
        1 <= run_length(bits, w, p) <= w - p % w,
        p + run_length(bits, w, p) <= bits.len(),
        forall|t: int| 0 <= t < run_length(bits, w, p) ==> #[trigger] bits[p + t] && (p + t) / w == p / w,
    decreases bits.len() - p,
{
    vstd::arithmetic::div_mod::lemma_fundamental_div_mod(p, w);
    lemma_next_column(p, w);
    if p + 1 < bits.len() && (p + 1) % w != 0 && !bits[p + 1] {
        assert(run_length(bits, w, p + 1) == 0);
        assert(run_length(bits, w, p) == 1);
    }
    if p + 1 < bits.len() && (p + 1) % w != 0 && bits[p + 1] {
        lemma_run_length_in_row(bits, w, p + 1);
        assert(run_length(bits, w, p) == 1 + run_length(bits, w, p + 1));
        assert forall|t: int| 0 <= t < run_length(bits, w, p) implies #[trigger] bits[p + t] && (p + t) / w == p / w by {
            if t > 0 {
                assert(bits[(p + 1) + (t - 1)]);
                assert(p + t == (p + 1) + (t - 1));
            }
        }
    }
}

/// A run reaches every module up to the next light module or the end of
/// its row.
proof fn lemma_run_length_reaches(bits: Seq<bool>, w: int, p: int, q: int)
    requires
        w > 0,
        0 <= p <= q < bits.len(),
        q / w == p / w,
        forall|t: int| p <= t <= q ==> #[trigger] bits[t],
    ensures
        run_length(bits, w, p) > q - p,
    decreases q - p,
{
    if p < q {
        vstd::arithmetic::div_mod::lemma_fundamental_div_mod(p, w);
        vstd::arithmetic::div_mod::lemma_fundamental_div_mod(q, w);
        lemma_next_column(p, w);
        assert(p % w + 1 < w) by (nonlinear_arith)
            requires
                p == w * (p / w) + p % w,
                q == w * (q / w) + q % w,
                q / w == p / w,
                p < q,
                q % w < w;
        lemma_run_length_reaches(bits, w, p + 1, q);
        assert(p + 1 < bits.len() && (p + 1) % w != 0);
        assert(run_length(bits, w, p) == 1 + run_length(bits, w, p + 1));
    } else {
        assert(bits[p]);
        lemma_run_length_in_row(bits, w, p);
    }
}

/// Each run of [spec_dark_runs] starts at a module where a run starts.
proof fn lemma_dark_runs_starts(bits: Seq<bool>, w: int, n: int, k: int)
    requires
        0 <= k < spec_dark_runs(bits, w, n).len(),
    ensures
        exists|p: int| 0 <= p < n && #[trigger] run_starts_at(bits, w, p) && spec_dark_runs(bits, w, n)[k]
            == ModuleRun::spec_new(p % w, p / w, run_length(bits, w, p)),
    decreases n,
{
    if n > 0 {
        if k < spec_dark_runs(bits, w, n - 1).len() {
            lemma_dark_runs_starts(bits, w, n - 1, k);
        } else {
            assert(run_starts_at(bits, w, n - 1));
        }
    }
}

/// A run that starts among the first `n` modules is one of [spec_dark_runs].
proof fn lemma_dark_runs_has(bits: Seq<bool>, w: int, n: int, p: int)
    requires
        0 <= p < n,
        run_starts_at(bits, w, p),
    ensures
        exists|k: int| 0 <= k < spec_dark_runs(bits, w, n).len() && #[trigger] spec_dark_runs(bits, w, n)[k]
            == ModuleRun::spec_new(p % w, p / w, run_length(bits, w, p)),
    decreases n,
{
    if p < n - 1 {
        lemma_dark_runs_has(bits, w, n - 1, p);
        let k = choose|k: int| 0 <= k < spec_dark_runs(bits, w, n - 1).len() && #[trigger] spec_dark_runs(
            bits, w, n - 1)[k] == ModuleRun::spec_new(p % w, p / w, run_length(bits, w, p));
        assert(spec_dark_runs(bits, w, n)[k] == spec_dark_runs(bits, w, n - 1)[k]);
    } else {
        let k = spec_dark_runs(bits, w, n - 1).len() as int;
        assert(spec_dark_runs(bits, w, n)[k] == ModuleRun::spec_new(p % w, p / w, run_length(bits, w, p)));
    }
}

/// The start of the run that holds the dark module `p`: the first dark
/// module of its row to the left of `p` with no light module in between.
pub open spec fn run_start_of(bits: Seq<bool>, w: int, p: int) -> int
    decreases p,
{
    if p <= 0 || p % w == 0 || !bits[p - 1] {
        p
    } else {
        run_start_of(bits, w, p - 1)
    }
}

proof fn lemma_run_start_of(bits: Seq<bool>, w: int, p: int)
    requires
        w > 0,
        0 <= p < bits.len(),
        bits[p],
    ensures
        0 <= run_start_of(bits, w, p) <= p,
        run_starts_at(bits, w, run_start_of(bits, w, p)),
        run_start_of(bits, w, p) / w == p / w,
        forall|t: int| run_start_of(bits, w, p) <= t <= p ==> #[trigger] bits[t],
    decreases p,
{
    if p <= 0 || p % w == 0 || !bits[p - 1] {
        if p <= 0 {
            vstd::arithmetic::div_mod::lemma_small_mod(0, w as nat);
        }
    } else {
        lemma_run_start_of(bits, w, p - 1);
        lemma_next_column(p - 1, w);
    }
}

/// The dark runs of a bitmap are its dark modules row by row: each run lies
/// inside one row (`x + width` at most the width of the bitmap), has at
/// least one module and only dark modules, and every dark module lies in a
/// run.
pub proof fn lemma_dark_runs_cover(bits: Seq<bool>, w: int)
    requires
        w > 0,
        bits.len() <= usize::MAX,
        w <= usize::MAX,
    ensures
        forall|k: int| 0 <= k < spec_dark_runs(bits, w, bits.len() as int).len() ==> {
            let r = #[trigger] spec_dark_runs(bits, w, bits.len() as int)[k];
            &&& 1 <= r.spec_width()
            &&& r.spec_x() + r.spec_width() <= w
            &&& forall|t: int| 0 <= t < r.spec_width() ==> #[trigger] bits[r.spec_y() * w + r.spec_x() + t]
        },
        forall|p: int| 0 <= p < bits.len() && #[trigger] bits[p] ==> exists|k: int|
            0 <= k < spec_dark_runs(bits, w, bits.len() as int).len() && {
                let r = #[trigger] spec_dark_runs(bits, w, bits.len() as int)[k];
                &&& r.spec_y() == p / w
                &&& r.spec_x() <= p % w < r.spec_x() + r.spec_width()
            },
{
    let n = bits.len() as int;
    assert forall|k: int| 0 <= k < spec_dark_runs(bits, w, n).len() implies {
        let r = #[trigger] spec_dark_runs(bits, w, n)[k];
        &&& 1 <= r.spec_width()
        &&& r.spec_x() + r.spec_width() <= w
        &&& forall|t: int| 0 <= t < r.spec_width() ==> #[trigger] bits[r.spec_y() * w + r.spec_x() + t]
    } by {
        lemma_dark_runs_starts(bits, w, n, k);
        let p = choose|p: int| 0 <= p < n && #[trigger] run_starts_at(bits, w, p) && spec_dark_runs(bits, w, n)[k]
            == ModuleRun::spec_new(p % w, p / w, run_length(bits, w, p));
        lemma_run_length_in_row(bits, w, p);
        vstd::arithmetic::div_mod::lemma_fundamental_div_mod(p, w);
        assert(0 <= p / w <= p) by (nonlinear_arith)
            requires 0 <= p, w > 0, p == w * (p / w) + p % w, 0 <= p % w;
        ModuleRun::lemma_new(p % w, p / w, run_length(bits, w, p));
        assert forall|t: int| 0 <= t < run_length(bits, w, p) implies #[trigger] bits[(p / w) * w + p % w + t] by {
            assert((p / w) * w == w * (p / w)) by (nonlinear_arith);
            assert(bits[p + t]);
        }
    }
    assert forall|p: int| 0 <= p < bits.len() && #[trigger] bits[p] implies exists|k: int|
        0 <= k < spec_dark_runs(bits, w, n).len() && {
            let r = #[trigger] spec_dark_runs(bits, w, n)[k];
            &&& r.spec_y() == p / w
            &&& r.spec_x() <= p % w < r.spec_x() + r.spec_width()
        } by {
        lemma_run_start_of(bits, w, p);
        let s = run_start_of(bits, w, p);
        lemma_dark_runs_has(bits, w, n, s);
        lemma_run_length_reaches(bits, w, s, p);
        lemma_run_length_in_row(bits, w, s);
        vstd::arithmetic::div_mod::lemma_fundamental_div_mod(p, w);
        vstd::arithmetic::div_mod::lemma_fundamental_div_mod(s, w);
        assert(0 <= s / w <= s) by (nonlinear_arith)
            requires 0 <= s, w > 0, s == w * (s / w) + s % w, 0 <= s % w;
        ModuleRun::lemma_new(s % w, s / w, run_length(bits, w, s));
        let k = choose|k: int| 0 <= k < spec_dark_runs(bits, w, n).len() && #[trigger] spec_dark_runs(bits, w, n)[k]
            == ModuleRun::spec_new(s % w, s / w, run_length(bits, w, s));
        assert(s % w <= p % w) by (nonlinear_arith)
            requires
                s == w * (s / w) + s % w,
                p == w * (p / w) + p % w,
                s / w == p / w,
                s <= p;
        assert(p % w - s % w == p - s) by (nonlinear_arith)
            requires
                s == w * (s / w) + s % w,
                p == w * (p / w) + p % w,
                s / w == p / w;
    }
}

} // verus!

verus! {

/// The pixels of a bitmap are its dark modules as (column, row): each
/// listed pixel is a dark module inside its row, and every dark module
/// among the first `n` is listed.
pub proof fn lemma_pixels_dark(bits: Seq<bool>, w: int, n: int)
    requires
        w > 0,
        0 <= n <= bits.len(),
        bits.len() <= usize::MAX,
    ensures
        forall|k: int| 0 <= k < spec_pixels(bits, w, n).len() ==> {
            let px = #[trigger] spec_pixels(bits, w, n)[k];
            &&& (px.0 as int) < w
            &&& bits[px.1 * w + px.0]
        },
        forall|p: int| 0 <= p < n && #[trigger] bits[p] ==> spec_pixels(bits, w, n).contains(
            ((p % w) as usize, (p / w) as usize),
        ),
    decreases n,
{
    if n > 0 {
        lemma_pixels_dark(bits, w, n - 1);
        let prev = spec_pixels(bits, w, n - 1);
        let cur = spec_pixels(bits, w, n);
        let q = n - 1;
        vstd::arithmetic::div_mod::lemma_fundamental_div_mod(q, w);
        assert(0 <= q / w <= q) by (nonlinear_arith)
            requires 0 <= q, w > 0, q == w * (q / w) + q % w, 0 <= q % w;
        assert((q / w) * w + q % w == q) by (nonlinear_arith)
            requires q == w * (q / w) + q % w;
        assert forall|k: int| 0 <= k < cur.len() implies {
            let px = #[trigger] cur[k];
            &&& (px.0 as int) < w
            &&& bits[px.1 * w + px.0]
        } by {
            if k < prev.len() {
                assert(cur[k] == prev[k]);
            }
        }
        assert forall|p: int| 0 <= p < n && #[trigger] bits[p] implies cur.contains(
            ((p % w) as usize, (p / w) as usize),
        ) by {
            if p < n - 1 {
                let k = choose|k: int| 0 <= k < prev.len() && prev[k] == ((p % w) as usize, (p / w) as usize);
                assert(cur[k] == prev[k]);
            } else {
                assert(cur[prev.len() as int] == ((q % w) as usize, (q / w) as usize));
            }
        }
    }
}

} // verus!
