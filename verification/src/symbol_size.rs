//! Symbol sizes of ECC 200 Data Matrix symbols and lists of allowed sizes.
//!
//! The numbers are the symbol attributes of ISO/IEC 16022 (square and
//! rectangular symbols) and of the rectangular extension (DMRE).
use vstd::prelude::*;

verus! {

/// Size of a Data Matrix symbol, given as rows x columns of modules
/// (finder and alignment patterns included, quiet zone excluded).
#[derive(Debug, Clone, Copy, PartialEq, Eq, Structural)]
pub enum SymbolSize {
    Square10,
    Square12,
    Square14,
    Square16,
    Square18,
    Square20,
    Square22,
    Square24,
    Square26,
    Square32,
    Square36,
    Square40,
    Square44,
    Square48,
    Square52,
    Square64,
    Square72,
    Square80,
    Square88,
    Square96,
    Square104,
    Square120,
    Square132,
    Square144,
    Rect8x18,
    Rect8x32,
    Rect12x26,
    Rect12x36,
    Rect16x36,
    Rect16x48,
    Rect8x48,
    Rect8x64,
    Rect8x80,
    Rect8x96,
    Rect8x120,
    Rect8x144,
    Rect12x64,
    Rect12x88,
    Rect16x64,
    Rect20x36,
    Rect20x44,
    Rect20x64,
    Rect22x48,
    Rect24x48,
    Rect24x64,
    Rect26x40,
    Rect26x48,
    Rect26x64,
}

/// Layout of a symbol: overall dimensions, alignment patterns and the
/// Reed-Solomon block structure.
#[derive(Debug, Clone, Copy, PartialEq, Eq, Structural)]
pub struct BlockSetup {
    /// Number of vertical alignment patterns inside the symbol (data region columns - 1).
    pub extra_vertical_alignments: usize,
    /// Number of horizontal alignment patterns inside the symbol (data region rows - 1).
    pub extra_horizontal_alignments: usize,
    /// Number of module columns, finder pattern included.
    pub width: usize,
    /// Number of module rows, finder pattern included.
    pub height: usize,
    /// Number of error correction codewords in each interleaved block.
    pub num_ecc_per_block: usize,
    /// Number of interleaved Reed-Solomon blocks.
    pub num_ecc_blocks: usize,
}

impl BlockSetup {
    fn make(
        height: usize,
        width: usize,
        extra_vertical_alignments: usize,
        extra_horizontal_alignments: usize,
        num_data: usize,
        num_ecc_per_block: usize,
        num_ecc_blocks: usize,
    ) -> (r: BlockSetup)
        ensures
            r.height == height,
            r.width == width,
            r.extra_vertical_alignments == extra_vertical_alignments,
            r.extra_horizontal_alignments == extra_horizontal_alignments,
            r.num_ecc_per_block == num_ecc_per_block,
            r.num_ecc_blocks == num_ecc_blocks,
    {
        BlockSetup {
            extra_vertical_alignments,
            extra_horizontal_alignments,
            width,
            height,
            num_ecc_per_block,
            num_ecc_blocks,
        }
    }

    /// Width of the mapping matrix: the symbol without finder and alignment patterns.
    pub open spec fn spec_content_width(self) -> int {
        self.width - 2 * (self.extra_vertical_alignments + 1)
    }

    /// Height of the mapping matrix: the symbol without finder and alignment patterns.
    pub open spec fn spec_content_height(self) -> int {
        self.height - 2 * (self.extra_horizontal_alignments + 1)
    }

    /// The bounds that every setup of the table meets.
    pub open spec fn wf(self) -> bool {
        &&& 8 <= self.height <= 144
        &&& 10 <= self.width <= 144
        &&& self.extra_vertical_alignments <= 5
        &&& self.extra_horizontal_alignments <= 5
        &&& 6 <= self.spec_content_width()
        &&& 6 <= self.spec_content_height()
        &&& self.spec_content_width() % (self.extra_vertical_alignments + 1) == 0
        &&& self.spec_content_height() % (self.extra_horizontal_alignments + 1) == 0
        &&& self.spec_content_width() / (self.extra_vertical_alignments + 1) >= 14
            || self.extra_vertical_alignments == 0
        &&& self.spec_content_height() / (self.extra_horizontal_alignments + 1) >= 6
        &&& 5 <= self.num_ecc_per_block <= 68
        &&& 1 <= self.num_ecc_blocks <= 10
    }

    /// Whether this setup is the one of `size` in the table.
    pub open spec fn spec_matches(self, size: SymbolSize) -> bool {
        let p = size.spec_params();
        &&& self.height == p.0
        &&& self.width == p.1
        &&& self.extra_vertical_alignments == p.2
        &&& self.extra_horizontal_alignments == p.3
        &&& self.num_ecc_per_block == p.5
        &&& self.num_ecc_blocks == p.6
    }

    /// Width of the mapping matrix (the symbol without finder and alignment patterns).
    pub fn content_width(&self) -> (r: usize)
        requires
            self.wf(),
        ensures
            r == self.spec_content_width(),
    {
        self.width - 2 * (self.extra_vertical_alignments + 1)
    }

    /// Height of the mapping matrix (the symbol without finder and alignment patterns).
    pub fn content_height(&self) -> (r: usize)
        requires
            self.wf(),
        ensures
            r == self.spec_content_height(),
    {
        self.height - 2 * (self.extra_horizontal_alignments + 1)
    }
}

/// An even quotient.
proof fn lemma_even_quotient(a: int, n: int, b: int)
    requires
        n > 0,
        a == b * n,
        b % 2 == 0,
    ensures
        (a / n) % 2 == 0,
{
    vstd::arithmetic::div_mod::lemma_div_multiples_vanish(b, n);
    assert(n * b == b * n) by (nonlinear_arith);
}

/// The data regions of `size` have an even number of rows.
pub open spec fn even_region_rows(size: SymbolSize) -> bool {
    (size.spec_setup().spec_content_height() / (size.spec_setup().extra_horizontal_alignments as int + 1)) % 2 == 0
}

impl SymbolSize {
    /// Table of the symbol attributes: (rows, columns, extra vertical alignments,
    /// extra horizontal alignments, data codewords, error codewords per block, blocks).
    pub open spec fn spec_params(self) -> (int, int, int, int, int, int, int) {
        match self {
            SymbolSize::Square10 => (10, 10, 0, 0, 3, 5, 1),
            SymbolSize::Square12 => (12, 12, 0, 0, 5, 7, 1),
            SymbolSize::Square14 => (14, 14, 0, 0, 8, 10, 1),
            SymbolSize::Square16 => (16, 16, 0, 0, 12, 12, 1),
            SymbolSize::Square18 => (18, 18, 0, 0, 18, 14, 1),
            SymbolSize::Square20 => (20, 20, 0, 0, 22, 18, 1),
            SymbolSize::Square22 => (22, 22, 0, 0, 30, 20, 1),
            SymbolSize::Square24 => (24, 24, 0, 0, 36, 24, 1),
            SymbolSize::Square26 => (26, 26, 0, 0, 44, 28, 1),
            SymbolSize::Square32 => (32, 32, 1, 1, 62, 36, 1),
            SymbolSize::Square36 => (36, 36, 1, 1, 86, 42, 1),
            SymbolSize::Square40 => (40, 40, 1, 1, 114, 48, 1),
            SymbolSize::Square44 => (44, 44, 1, 1, 144, 56, 1),
            SymbolSize::Square48 => (48, 48, 1, 1, 174, 68, 1),
            SymbolSize::Square52 => (52, 52, 1, 1, 204, 42, 2),
            SymbolSize::Square64 => (64, 64, 3, 3, 280, 56, 2),
            SymbolSize::Square72 => (72, 72, 3, 3, 368, 36, 4),
            SymbolSize::Square80 => (80, 80, 3, 3, 456, 48, 4),
            SymbolSize::Square88 => (88, 88, 3, 3, 576, 56, 4),
            SymbolSize::Square96 => (96, 96, 3, 3, 696, 68, 4),
            SymbolSize::Square104 => (104, 104, 3, 3, 816, 56, 6),
            SymbolSize::Square120 => (120, 120, 5, 5, 1050, 68, 6),
            SymbolSize::Square132 => (132, 132, 5, 5, 1304, 62, 8),
            SymbolSize::Square144 => (144, 144, 5, 5, 1558, 62, 10),
            SymbolSize::Rect8x18 => (8, 18, 0, 0, 5, 7, 1),
            SymbolSize::Rect8x32 => (8, 32, 1, 0, 10, 11, 1),
            SymbolSize::Rect12x26 => (12, 26, 0, 0, 16, 14, 1),
            SymbolSize::Rect12x36 => (12, 36, 1, 0, 22, 18, 1),
            SymbolSize::Rect16x36 => (16, 36, 1, 0, 32, 24, 1),
            SymbolSize::Rect16x48 => (16, 48, 1, 0, 49, 28, 1),
            SymbolSize::Rect8x48 => (8, 48, 1, 0, 18, 15, 1),
            SymbolSize::Rect8x64 => (8, 64, 3, 0, 24, 18, 1),
            SymbolSize::Rect8x80 => (8, 80, 3, 0, 32, 22, 1),
            SymbolSize::Rect8x96 => (8, 96, 3, 0, 38, 28, 1),
            SymbolSize::Rect8x120 => (8, 120, 5, 0, 49, 32, 1),
            SymbolSize::Rect8x144 => (8, 144, 5, 0, 63, 18, 2),
            SymbolSize::Rect12x64 => (12, 64, 3, 0, 43, 27, 1),
            SymbolSize::Rect12x88 => (12, 88, 3, 0, 64, 18, 2),
            SymbolSize::Rect16x64 => (16, 64, 3, 0, 62, 18, 2),
            SymbolSize::Rect20x36 => (20, 36, 1, 0, 44, 28, 1),
            SymbolSize::Rect20x44 => (20, 44, 1, 0, 56, 34, 1),
            SymbolSize::Rect20x64 => (20, 64, 3, 0, 84, 21, 2),
            SymbolSize::Rect22x48 => (22, 48, 1, 0, 72, 38, 1),
            SymbolSize::Rect24x48 => (24, 48, 1, 0, 80, 41, 1),
            SymbolSize::Rect24x64 => (24, 64, 3, 0, 108, 23, 2),
            SymbolSize::Rect26x40 => (26, 40, 1, 0, 70, 38, 1),
            SymbolSize::Rect26x48 => (26, 48, 1, 0, 90, 42, 1),
            SymbolSize::Rect26x64 => (26, 64, 3, 0, 118, 25, 2),
        }
    }
    pub open spec fn spec_setup(self) -> BlockSetup {
        let p = self.spec_params();
        BlockSetup {
            height: p.0 as usize,
            width: p.1 as usize,
            extra_vertical_alignments: p.2 as usize,
            extra_horizontal_alignments: p.3 as usize,
            num_ecc_per_block: p.5 as usize,
            num_ecc_blocks: p.6 as usize,
        }
    }

    /// Number of data codewords of the symbol.
    pub open spec fn spec_num_data_codewords(self) -> int {
        self.spec_params().4
    }

    /// Number of codewords of the symbol, error correction included.
    pub open spec fn spec_num_codewords(self) -> int {
        let p = self.spec_params();
        p.4 + p.5 * p.6
    }

    /// The number of rows and columns of a symbol determine its data regions.
    pub proof fn lemma_layout_from_dimensions(self, other: SymbolSize)
        requires
            self.spec_setup().width == other.spec_setup().width,
            self.spec_setup().height == other.spec_setup().height,
        ensures
            self.spec_setup() == other.spec_setup(),
            self == other,
    {
    }

    /// Every symbol size is in the list of all sizes.
    pub proof fn lemma_listed(self)
        ensures
            spec_all_sizes().contains(self),
    {
    }

    /// The data regions of every size have an even number of rows.
    pub proof fn lemma_even_regions(self)
        ensures
            even_region_rows(self),
    {
        match self {
            SymbolSize::Square10 => lemma_even_quotient(8, 1, 8),
            SymbolSize::Square12 => lemma_even_quotient(10, 1, 10),
            SymbolSize::Square14 => lemma_even_quotient(12, 1, 12),
            SymbolSize::Square16 => lemma_even_quotient(14, 1, 14),
            SymbolSize::Square18 => lemma_even_quotient(16, 1, 16),
            SymbolSize::Square20 => lemma_even_quotient(18, 1, 18),
            SymbolSize::Square22 => lemma_even_quotient(20, 1, 20),
            SymbolSize::Square24 => lemma_even_quotient(22, 1, 22),
            SymbolSize::Square26 => lemma_even_quotient(24, 1, 24),
            SymbolSize::Square32 => lemma_even_quotient(28, 2, 14),
            SymbolSize::Square36 => lemma_even_quotient(32, 2, 16),
            SymbolSize::Square40 => lemma_even_quotient(36, 2, 18),
            SymbolSize::Square44 => lemma_even_quotient(40, 2, 20),
            SymbolSize::Square48 => lemma_even_quotient(44, 2, 22),
            SymbolSize::Square52 => lemma_even_quotient(48, 2, 24),
            SymbolSize::Square64 => lemma_even_quotient(56, 4, 14),
            SymbolSize::Square72 => lemma_even_quotient(64, 4, 16),
            SymbolSize::Square80 => lemma_even_quotient(72, 4, 18),
            SymbolSize::Square88 => lemma_even_quotient(80, 4, 20),
            SymbolSize::Square96 => lemma_even_quotient(88, 4, 22),
            SymbolSize::Square104 => lemma_even_quotient(96, 4, 24),
            SymbolSize::Square120 => lemma_even_quotient(108, 6, 18),
            SymbolSize::Square132 => lemma_even_quotient(120, 6, 20),
            SymbolSize::Square144 => lemma_even_quotient(132, 6, 22),
            SymbolSize::Rect8x18 => lemma_even_quotient(6, 1, 6),
            SymbolSize::Rect8x32 => lemma_even_quotient(6, 1, 6),
            SymbolSize::Rect12x26 => lemma_even_quotient(10, 1, 10),
            SymbolSize::Rect12x36 => lemma_even_quotient(10, 1, 10),
            SymbolSize::Rect16x36 => lemma_even_quotient(14, 1, 14),
            SymbolSize::Rect16x48 => lemma_even_quotient(14, 1, 14),
            SymbolSize::Rect8x48 => lemma_even_quotient(6, 1, 6),
            SymbolSize::Rect8x64 => lemma_even_quotient(6, 1, 6),
            SymbolSize::Rect8x80 => lemma_even_quotient(6, 1, 6),
            SymbolSize::Rect8x96 => lemma_even_quotient(6, 1, 6),
            SymbolSize::Rect8x120 => lemma_even_quotient(6, 1, 6),
            SymbolSize::Rect8x144 => lemma_even_quotient(6, 1, 6),
            SymbolSize::Rect12x64 => lemma_even_quotient(10, 1, 10),
            SymbolSize::Rect12x88 => lemma_even_quotient(10, 1, 10),
            SymbolSize::Rect16x64 => lemma_even_quotient(14, 1, 14),
            SymbolSize::Rect20x36 => lemma_even_quotient(18, 1, 18),
            SymbolSize::Rect20x44 => lemma_even_quotient(18, 1, 18),
            SymbolSize::Rect20x64 => lemma_even_quotient(18, 1, 18),
            SymbolSize::Rect22x48 => lemma_even_quotient(20, 1, 20),
            SymbolSize::Rect24x48 => lemma_even_quotient(22, 1, 22),
            SymbolSize::Rect24x64 => lemma_even_quotient(22, 1, 22),
            SymbolSize::Rect26x40 => lemma_even_quotient(24, 1, 24),
            SymbolSize::Rect26x48 => lemma_even_quotient(24, 1, 24),
            SymbolSize::Rect26x64 => lemma_even_quotient(24, 1, 24),
        }
    }

    /// The table is consistent: the mapping matrix holds exactly the codewords
    /// (up to four modules of padding) and every setup meets the bounds of `wf`.
    pub proof fn lemma_table_consistent(self)
        ensures
            self.spec_setup().wf(),
            self.spec_setup().spec_matches(self),
            ({
                let s = self.spec_setup();
                let area = s.spec_content_width() * s.spec_content_height();
                &&& self.spec_num_codewords() == area / 8
                &&& (area % 8 == 0 || area % 8 == 4)
            }),
            1 <= self.spec_num_data_codewords() <= 1558,
            self.spec_num_codewords() <= 2178,
            self.spec_num_data_codewords() >= self.spec_setup().num_ecc_blocks,
    {
        match self {
            SymbolSize::Square10 => {
                assert(self.spec_params().5 * self.spec_params().6 == 5int) by (nonlinear_arith)
                    requires self.spec_params().5 == 5int, self.spec_params().6 == 1int;
                assert(self.spec_setup().spec_content_width() == 8);
                assert(self.spec_setup().spec_content_height() == 8);
                assert(self.spec_setup().spec_content_width() * self.spec_setup().spec_content_height() == 64int) by (nonlinear_arith)
                    requires self.spec_setup().spec_content_width() == 8int, self.spec_setup().spec_content_height() == 8int;
                assert(8int % 1int == 0 && 8int / 1int == 8int);
                assert(8int % 1int == 0 && 8int / 1int == 8int);
                assert(64int / 8int == 8int && 64int % 8int == 0int);
            },
            SymbolSize::Square12 => {
                assert(self.spec_params().5 * self.spec_params().6 == 7int) by (nonlinear_arith)
                    requires self.spec_params().5 == 7int, self.spec_params().6 == 1int;
                assert(self.spec_setup().spec_content_width() == 10);
                assert(self.spec_setup().spec_content_height() == 10);
                assert(self.spec_setup().spec_content_width() * self.spec_setup().spec_content_height() == 100int) by (nonlinear_arith)
                    requires self.spec_setup().spec_content_width() == 10int, self.spec_setup().spec_content_height() == 10int;
                assert(10int % 1int == 0 && 10int / 1int == 10int);
                assert(10int % 1int == 0 && 10int / 1int == 10int);
                assert(100int / 8int == 12int && 100int % 8int == 4int);
            },
            SymbolSize::Square14 => {
                assert(self.spec_params().5 * self.spec_params().6 == 10int) by (nonlinear_arith)
                    requires self.spec_params().5 == 10int, self.spec_params().6 == 1int;
                assert(self.spec_setup().spec_content_width() == 12);
                assert(self.spec_setup().spec_content_height() == 12);
                assert(self.spec_setup().spec_content_width() * self.spec_setup().spec_content_height() == 144int) by (nonlinear_arith)
                    requires self.spec_setup().spec_content_width() == 12int, self.spec_setup().spec_content_height() == 12int;
                assert(12int % 1int == 0 && 12int / 1int == 12int);
                assert(12int % 1int == 0 && 12int / 1int == 12int);
                assert(144int / 8int == 18int && 144int % 8int == 0int);
            },
            SymbolSize::Square16 => {
                assert(self.spec_params().5 * self.spec_params().6 == 12int) by (nonlinear_arith)
                    requires self.spec_params().5 == 12int, self.spec_params().6 == 1int;
                assert(self.spec_setup().spec_content_width() == 14);
                assert(self.spec_setup().spec_content_height() == 14);
                assert(self.spec_setup().spec_content_width() * self.spec_setup().spec_content_height() == 196int) by (nonlinear_arith)
                    requires self.spec_setup().spec_content_width() == 14int, self.spec_setup().spec_content_height() == 14int;
                assert(14int % 1int == 0 && 14int / 1int == 14int);
                assert(14int % 1int == 0 && 14int / 1int == 14int);
                assert(196int / 8int == 24int && 196int % 8int == 4int);
            },
            SymbolSize::Square18 => {
                assert(self.spec_params().5 * self.spec_params().6 == 14int) by (nonlinear_arith)
                    requires self.spec_params().5 == 14int, self.spec_params().6 == 1int;
                assert(self.spec_setup().spec_content_width() == 16);
                assert(self.spec_setup().spec_content_height() == 16);
                assert(self.spec_setup().spec_content_width() * self.spec_setup().spec_content_height() == 256int) by (nonlinear_arith)
                    requires self.spec_setup().spec_content_width() == 16int, self.spec_setup().spec_content_height() == 16int;
                assert(16int % 1int == 0 && 16int / 1int == 16int);
                assert(16int % 1int == 0 && 16int / 1int == 16int);
                assert(256int / 8int == 32int && 256int % 8int == 0int);
            },
            SymbolSize::Square20 => {
                assert(self.spec_params().5 * self.spec_params().6 == 18int) by (nonlinear_arith)
                    requires self.spec_params().5 == 18int, self.spec_params().6 == 1int;
                assert(self.spec_setup().spec_content_width() == 18);
                assert(self.spec_setup().spec_content_height() == 18);
                assert(self.spec_setup().spec_content_width() * self.spec_setup().spec_content_height() == 324int) by (nonlinear_arith)
                    requires self.spec_setup().spec_content_width() == 18int, self.spec_setup().spec_content_height() == 18int;
                assert(18int % 1int == 0 && 18int / 1int == 18int);
                assert(18int % 1int == 0 && 18int / 1int == 18int);
                assert(324int / 8int == 40int && 324int % 8int == 4int);
            },
            SymbolSize::Square22 => {
                assert(self.spec_params().5 * self.spec_params().6 == 20int) by (nonlinear_arith)
                    requires self.spec_params().5 == 20int, self.spec_params().6 == 1int;
                assert(self.spec_setup().spec_content_width() == 20);
                assert(self.spec_setup().spec_content_height() == 20);
                assert(self.spec_setup().spec_content_width() * self.spec_setup().spec_content_height() == 400int) by (nonlinear_arith)
                    requires self.spec_setup().spec_content_width() == 20int, self.spec_setup().spec_content_height() == 20int;
                assert(20int % 1int == 0 && 20int / 1int == 20int);
                assert(20int % 1int == 0 && 20int / 1int == 20int);
                assert(400int / 8int == 50int && 400int % 8int == 0int);
            },
            SymbolSize::Square24 => {
                assert(self.spec_params().5 * self.spec_params().6 == 24int) by (nonlinear_arith)
                    requires self.spec_params().5 == 24int, self.spec_params().6 == 1int;
                assert(self.spec_setup().spec_content_width() == 22);
                assert(self.spec_setup().spec_content_height() == 22);
                assert(self.spec_setup().spec_content_width() * self.spec_setup().spec_content_height() == 484int) by (nonlinear_arith)
                    requires self.spec_setup().spec_content_width() == 22int, self.spec_setup().spec_content_height() == 22int;
                assert(22int % 1int == 0 && 22int / 1int == 22int);
                assert(22int % 1int == 0 && 22int / 1int == 22int);
                assert(484int / 8int == 60int && 484int % 8int == 4int);
            },
            SymbolSize::Square26 => {
                assert(self.spec_params().5 * self.spec_params().6 == 28int) by (nonlinear_arith)
                    requires self.spec_params().5 == 28int, self.spec_params().6 == 1int;
                assert(self.spec_setup().spec_content_width() == 24);
                assert(self.spec_setup().spec_content_height() == 24);
                assert(self.spec_setup().spec_content_width() * self.spec_setup().spec_content_height() == 576int) by (nonlinear_arith)
                    requires self.spec_setup().spec_content_width() == 24int, self.spec_setup().spec_content_height() == 24int;
                assert(24int % 1int == 0 && 24int / 1int == 24int);
                assert(24int % 1int == 0 && 24int / 1int == 24int);
                assert(576int / 8int == 72int && 576int % 8int == 0int);
            },
            SymbolSize::Square32 => {
                assert(self.spec_params().5 * self.spec_params().6 == 36int) by (nonlinear_arith)
                    requires self.spec_params().5 == 36int, self.spec_params().6 == 1int;
                assert(self.spec_setup().spec_content_width() == 28);
                assert(self.spec_setup().spec_content_height() == 28);
                assert(self.spec_setup().spec_content_width() * self.spec_setup().spec_content_height() == 784int) by (nonlinear_arith)
                    requires self.spec_setup().spec_content_width() == 28int, self.spec_setup().spec_content_height() == 28int;
                assert(28int % 2int == 0 && 28int / 2int == 14int);
                assert(28int % 2int == 0 && 28int / 2int == 14int);
                assert(784int / 8int == 98int && 784int % 8int == 0int);
            },
            SymbolSize::Square36 => {
                assert(self.spec_params().5 * self.spec_params().6 == 42int) by (nonlinear_arith)
                    requires self.spec_params().5 == 42int, self.spec_params().6 == 1int;
                assert(self.spec_setup().spec_content_width() == 32);
                assert(self.spec_setup().spec_content_height() == 32);
                assert(self.spec_setup().spec_content_width() * self.spec_setup().spec_content_height() == 1024int) by (nonlinear_arith)
                    requires self.spec_setup().spec_content_width() == 32int, self.spec_setup().spec_content_height() == 32int;
                assert(32int % 2int == 0 && 32int / 2int == 16int);
                assert(32int % 2int == 0 && 32int / 2int == 16int);
                assert(1024int / 8int == 128int && 1024int % 8int == 0int);
            },
            SymbolSize::Square40 => {
                assert(self.spec_params().5 * self.spec_params().6 == 48int) by (nonlinear_arith)
                    requires self.spec_params().5 == 48int, self.spec_params().6 == 1int;
                assert(self.spec_setup().spec_content_width() == 36);
                assert(self.spec_setup().spec_content_height() == 36);
                assert(self.spec_setup().spec_content_width() * self.spec_setup().spec_content_height() == 1296int) by (nonlinear_arith)
                    requires self.spec_setup().spec_content_width() == 36int, self.spec_setup().spec_content_height() == 36int;
                assert(36int % 2int == 0 && 36int / 2int == 18int);
                assert(36int % 2int == 0 && 36int / 2int == 18int);
                assert(1296int / 8int == 162int && 1296int % 8int == 0int);
            },
            SymbolSize::Square44 => {
                assert(self.spec_params().5 * self.spec_params().6 == 56int) by (nonlinear_arith)
                    requires self.spec_params().5 == 56int, self.spec_params().6 == 1int;
                assert(self.spec_setup().spec_content_width() == 40);
                assert(self.spec_setup().spec_content_height() == 40);
                assert(self.spec_setup().spec_content_width() * self.spec_setup().spec_content_height() == 1600int) by (nonlinear_arith)
                    requires self.spec_setup().spec_content_width() == 40int, self.spec_setup().spec_content_height() == 40int;
                assert(40int % 2int == 0 && 40int / 2int == 20int);
                assert(40int % 2int == 0 && 40int / 2int == 20int);
                assert(1600int / 8int == 200int && 1600int % 8int == 0int);
            },
            SymbolSize::Square48 => {
                assert(self.spec_params().5 * self.spec_params().6 == 68int) by (nonlinear_arith)
                    requires self.spec_params().5 == 68int, self.spec_params().6 == 1int;
                assert(self.spec_setup().spec_content_width() == 44);
                assert(self.spec_setup().spec_content_height() == 44);
                assert(self.spec_setup().spec_content_width() * self.spec_setup().spec_content_height() == 1936int) by (nonlinear_arith)
                    requires self.spec_setup().spec_content_width() == 44int, self.spec_setup().spec_content_height() == 44int;
                assert(44int % 2int == 0 && 44int / 2int == 22int);
                assert(44int % 2int == 0 && 44int / 2int == 22int);
                assert(1936int / 8int == 242int && 1936int % 8int == 0int);
            },
            SymbolSize::Square52 => {
                assert(self.spec_params().5 * self.spec_params().6 == 84int) by (nonlinear_arith)
                    requires self.spec_params().5 == 42int, self.spec_params().6 == 2int;
                assert(self.spec_setup().spec_content_width() == 48);
                assert(self.spec_setup().spec_content_height() == 48);
                assert(self.spec_setup().spec_content_width() * self.spec_setup().spec_content_height() == 2304int) by (nonlinear_arith)
                    requires self.spec_setup().spec_content_width() == 48int, self.spec_setup().spec_content_height() == 48int;
                assert(48int % 2int == 0 && 48int / 2int == 24int);
                assert(48int % 2int == 0 && 48int / 2int == 24int);
                assert(2304int / 8int == 288int && 2304int % 8int == 0int);
            },
            SymbolSize::Square64 => {
                assert(self.spec_params().5 * self.spec_params().6 == 112int) by (nonlinear_arith)
                    requires self.spec_params().5 == 56int, self.spec_params().6 == 2int;
                assert(self.spec_setup().spec_content_width() == 56);
                assert(self.spec_setup().spec_content_height() == 56);
                assert(self.spec_setup().spec_content_width() * self.spec_setup().spec_content_height() == 3136int) by (nonlinear_arith)
                    requires self.spec_setup().spec_content_width() == 56int, self.spec_setup().spec_content_height() == 56int;
                assert(56int % 4int == 0 && 56int / 4int == 14int);
                assert(56int % 4int == 0 && 56int / 4int == 14int);
                assert(3136int / 8int == 392int && 3136int % 8int == 0int);
            },
            SymbolSize::Square72 => {
                assert(self.spec_params().5 * self.spec_params().6 == 144int) by (nonlinear_arith)
                    requires self.spec_params().5 == 36int, self.spec_params().6 == 4int;
                assert(self.spec_setup().spec_content_width() == 64);
                assert(self.spec_setup().spec_content_height() == 64);
                assert(self.spec_setup().spec_content_width() * self.spec_setup().spec_content_height() == 4096int) by (nonlinear_arith)
                    requires self.spec_setup().spec_content_width() == 64int, self.spec_setup().spec_content_height() == 64int;
                assert(64int % 4int == 0 && 64int / 4int == 16int);
                assert(64int % 4int == 0 && 64int / 4int == 16int);
                assert(4096int / 8int == 512int && 4096int % 8int == 0int);
            },
            SymbolSize::Square80 => {
                assert(self.spec_params().5 * self.spec_params().6 == 192int) by (nonlinear_arith)
                    requires self.spec_params().5 == 48int, self.spec_params().6 == 4int;
                assert(self.spec_setup().spec_content_width() == 72);
                assert(self.spec_setup().spec_content_height() == 72);
                assert(self.spec_setup().spec_content_width() * self.spec_setup().spec_content_height() == 5184int) by (nonlinear_arith)
                    requires self.spec_setup().spec_content_width() == 72int, self.spec_setup().spec_content_height() == 72int;
                assert(72int % 4int == 0 && 72int / 4int == 18int);
                assert(72int % 4int == 0 && 72int / 4int == 18int);
                assert(5184int / 8int == 648int && 5184int % 8int == 0int);
            },
            SymbolSize::Square88 => {
                assert(self.spec_params().5 * self.spec_params().6 == 224int) by (nonlinear_arith)
                    requires self.spec_params().5 == 56int, self.spec_params().6 == 4int;
                assert(self.spec_setup().spec_content_width() == 80);
                assert(self.spec_setup().spec_content_height() == 80);
                assert(self.spec_setup().spec_content_width() * self.spec_setup().spec_content_height() == 6400int) by (nonlinear_arith)
                    requires self.spec_setup().spec_content_width() == 80int, self.spec_setup().spec_content_height() == 80int;
                assert(80int % 4int == 0 && 80int / 4int == 20int);
                assert(80int % 4int == 0 && 80int / 4int == 20int);
                assert(6400int / 8int == 800int && 6400int % 8int == 0int);
            },
            SymbolSize::Square96 => {
                assert(self.spec_params().5 * self.spec_params().6 == 272int) by (nonlinear_arith)
                    requires self.spec_params().5 == 68int, self.spec_params().6 == 4int;
                assert(self.spec_setup().spec_content_width() == 88);
                assert(self.spec_setup().spec_content_height() == 88);
                assert(self.spec_setup().spec_content_width() * self.spec_setup().spec_content_height() == 7744int) by (nonlinear_arith)
                    requires self.spec_setup().spec_content_width() == 88int, self.spec_setup().spec_content_height() == 88int;
                assert(88int % 4int == 0 && 88int / 4int == 22int);
                assert(88int % 4int == 0 && 88int / 4int == 22int);
                assert(7744int / 8int == 968int && 7744int % 8int == 0int);
            },
            SymbolSize::Square104 => {
                assert(self.spec_params().5 * self.spec_params().6 == 336int) by (nonlinear_arith)
                    requires self.spec_params().5 == 56int, self.spec_params().6 == 6int;
                assert(self.spec_setup().spec_content_width() == 96);
                assert(self.spec_setup().spec_content_height() == 96);
                assert(self.spec_setup().spec_content_width() * self.spec_setup().spec_content_height() == 9216int) by (nonlinear_arith)
                    requires self.spec_setup().spec_content_width() == 96int, self.spec_setup().spec_content_height() == 96int;
                assert(96int % 4int == 0 && 96int / 4int == 24int);
                assert(96int % 4int == 0 && 96int / 4int == 24int);
                assert(9216int / 8int == 1152int && 9216int % 8int == 0int);
            },
            SymbolSize::Square120 => {
                assert(self.spec_params().5 * self.spec_params().6 == 408int) by (nonlinear_arith)
                    requires self.spec_params().5 == 68int, self.spec_params().6 == 6int;
                assert(self.spec_setup().spec_content_width() == 108);
                assert(self.spec_setup().spec_content_height() == 108);
                assert(self.spec_setup().spec_content_width() * self.spec_setup().spec_content_height() == 11664int) by (nonlinear_arith)
                    requires self.spec_setup().spec_content_width() == 108int, self.spec_setup().spec_content_height() == 108int;
                assert(108int % 6int == 0 && 108int / 6int == 18int);
                assert(108int % 6int == 0 && 108int / 6int == 18int);
                assert(11664int / 8int == 1458int && 11664int % 8int == 0int);
            },
            SymbolSize::Square132 => {
                assert(self.spec_params().5 * self.spec_params().6 == 496int) by (nonlinear_arith)
                    requires self.spec_params().5 == 62int, self.spec_params().6 == 8int;
                assert(self.spec_setup().spec_content_width() == 120);
                assert(self.spec_setup().spec_content_height() == 120);
                assert(self.spec_setup().spec_content_width() * self.spec_setup().spec_content_height() == 14400int) by (nonlinear_arith)
                    requires self.spec_setup().spec_content_width() == 120int, self.spec_setup().spec_content_height() == 120int;
                assert(120int % 6int == 0 && 120int / 6int == 20int);
                assert(120int % 6int == 0 && 120int / 6int == 20int);
                assert(14400int / 8int == 1800int && 14400int % 8int == 0int);
            },
            SymbolSize::Square144 => {
                assert(self.spec_params().5 * self.spec_params().6 == 620int) by (nonlinear_arith)
                    requires self.spec_params().5 == 62int, self.spec_params().6 == 10int;
                assert(self.spec_setup().spec_content_width() == 132);
                assert(self.spec_setup().spec_content_height() == 132);
                assert(self.spec_setup().spec_content_width() * self.spec_setup().spec_content_height() == 17424int) by (nonlinear_arith)
                    requires self.spec_setup().spec_content_width() == 132int, self.spec_setup().spec_content_height() == 132int;
                assert(132int % 6int == 0 && 132int / 6int == 22int);
                assert(132int % 6int == 0 && 132int / 6int == 22int);
                assert(17424int / 8int == 2178int && 17424int % 8int == 0int);
            },
            SymbolSize::Rect8x18 => {
                assert(self.spec_params().5 * self.spec_params().6 == 7int) by (nonlinear_arith)
                    requires self.spec_params().5 == 7int, self.spec_params().6 == 1int;
                assert(self.spec_setup().spec_content_width() == 16);
                assert(self.spec_setup().spec_content_height() == 6);
                assert(self.spec_setup().spec_content_width() * self.spec_setup().spec_content_height() == 96int) by (nonlinear_arith)
                    requires self.spec_setup().spec_content_width() == 16int, self.spec_setup().spec_content_height() == 6int;
                assert(16int % 1int == 0 && 16int / 1int == 16int);
                assert(6int % 1int == 0 && 6int / 1int == 6int);
                assert(96int / 8int == 12int && 96int % 8int == 0int);
            },
            SymbolSize::Rect8x32 => {
                assert(self.spec_params().5 * self.spec_params().6 == 11int) by (nonlinear_arith)
                    requires self.spec_params().5 == 11int, self.spec_params().6 == 1int;
                assert(self.spec_setup().spec_content_width() == 28);
                assert(self.spec_setup().spec_content_height() == 6);
                assert(self.spec_setup().spec_content_width() * self.spec_setup().spec_content_height() == 168int) by (nonlinear_arith)
                    requires self.spec_setup().spec_content_width() == 28int, self.spec_setup().spec_content_height() == 6int;
                assert(28int % 2int == 0 && 28int / 2int == 14int);
                assert(6int % 1int == 0 && 6int / 1int == 6int);
                assert(168int / 8int == 21int && 168int % 8int == 0int);
            },
            SymbolSize::Rect12x26 => {
                assert(self.spec_params().5 * self.spec_params().6 == 14int) by (nonlinear_arith)
                    requires self.spec_params().5 == 14int, self.spec_params().6 == 1int;
                assert(self.spec_setup().spec_content_width() == 24);
                assert(self.spec_setup().spec_content_height() == 10);
                assert(self.spec_setup().spec_content_width() * self.spec_setup().spec_content_height() == 240int) by (nonlinear_arith)
                    requires self.spec_setup().spec_content_width() == 24int, self.spec_setup().spec_content_height() == 10int;
                assert(24int % 1int == 0 && 24int / 1int == 24int);
                assert(10int % 1int == 0 && 10int / 1int == 10int);
                assert(240int / 8int == 30int && 240int % 8int == 0int);
            },
            SymbolSize::Rect12x36 => {
                assert(self.spec_params().5 * self.spec_params().6 == 18int) by (nonlinear_arith)
                    requires self.spec_params().5 == 18int, self.spec_params().6 == 1int;
                assert(self.spec_setup().spec_content_width() == 32);
                assert(self.spec_setup().spec_content_height() == 10);
                assert(self.spec_setup().spec_content_width() * self.spec_setup().spec_content_height() == 320int) by (nonlinear_arith)
                    requires self.spec_setup().spec_content_width() == 32int, self.spec_setup().spec_content_height() == 10int;
                assert(32int % 2int == 0 && 32int / 2int == 16int);
                assert(10int % 1int == 0 && 10int / 1int == 10int);
                assert(320int / 8int == 40int && 320int % 8int == 0int);
            },
            SymbolSize::Rect16x36 => {
                assert(self.spec_params().5 * self.spec_params().6 == 24int) by (nonlinear_arith)
                    requires self.spec_params().5 == 24int, self.spec_params().6 == 1int;
                assert(self.spec_setup().spec_content_width() == 32);
                assert(self.spec_setup().spec_content_height() == 14);
                assert(self.spec_setup().spec_content_width() * self.spec_setup().spec_content_height() == 448int) by (nonlinear_arith)
                    requires self.spec_setup().spec_content_width() == 32int, self.spec_setup().spec_content_height() == 14int;
                assert(32int % 2int == 0 && 32int / 2int == 16int);
                assert(14int % 1int == 0 && 14int / 1int == 14int);
                assert(448int / 8int == 56int && 448int % 8int == 0int);
            },
            SymbolSize::Rect16x48 => {
                assert(self.spec_params().5 * self.spec_params().6 == 28int) by (nonlinear_arith)
                    requires self.spec_params().5 == 28int, self.spec_params().6 == 1int;
                assert(self.spec_setup().spec_content_width() == 44);
                assert(self.spec_setup().spec_content_height() == 14);
                assert(self.spec_setup().spec_content_width() * self.spec_setup().spec_content_height() == 616int) by (nonlinear_arith)
                    requires self.spec_setup().spec_content_width() == 44int, self.spec_setup().spec_content_height() == 14int;
                assert(44int % 2int == 0 && 44int / 2int == 22int);
                assert(14int % 1int == 0 && 14int / 1int == 14int);
                assert(616int / 8int == 77int && 616int % 8int == 0int);
            },
            SymbolSize::Rect8x48 => {
                assert(self.spec_params().5 * self.spec_params().6 == 15int) by (nonlinear_arith)
                    requires self.spec_params().5 == 15int, self.spec_params().6 == 1int;
                assert(self.spec_setup().spec_content_width() == 44);
                assert(self.spec_setup().spec_content_height() == 6);
                assert(self.spec_setup().spec_content_width() * self.spec_setup().spec_content_height() == 264int) by (nonlinear_arith)
                    requires self.spec_setup().spec_content_width() == 44int, self.spec_setup().spec_content_height() == 6int;
                assert(44int % 2int == 0 && 44int / 2int == 22int);
                assert(6int % 1int == 0 && 6int / 1int == 6int);
                assert(264int / 8int == 33int && 264int % 8int == 0int);
            },
            SymbolSize::Rect8x64 => {
                assert(self.spec_params().5 * self.spec_params().6 == 18int) by (nonlinear_arith)
                    requires self.spec_params().5 == 18int, self.spec_params().6 == 1int;
                assert(self.spec_setup().spec_content_width() == 56);
                assert(self.spec_setup().spec_content_height() == 6);
                assert(self.spec_setup().spec_content_width() * self.spec_setup().spec_content_height() == 336int) by (nonlinear_arith)
                    requires self.spec_setup().spec_content_width() == 56int, self.spec_setup().spec_content_height() == 6int;
                assert(56int % 4int == 0 && 56int / 4int == 14int);
                assert(6int % 1int == 0 && 6int / 1int == 6int);
                assert(336int / 8int == 42int && 336int % 8int == 0int);
            },
            SymbolSize::Rect8x80 => {
                assert(self.spec_params().5 * self.spec_params().6 == 22int) by (nonlinear_arith)
                    requires self.spec_params().5 == 22int, self.spec_params().6 == 1int;
                assert(self.spec_setup().spec_content_width() == 72);
                assert(self.spec_setup().spec_content_height() == 6);
                assert(self.spec_setup().spec_content_width() * self.spec_setup().spec_content_height() == 432int) by (nonlinear_arith)
                    requires self.spec_setup().spec_content_width() == 72int, self.spec_setup().spec_content_height() == 6int;
                assert(72int % 4int == 0 && 72int / 4int == 18int);
                assert(6int % 1int == 0 && 6int / 1int == 6int);
                assert(432int / 8int == 54int && 432int % 8int == 0int);
            },
            SymbolSize::Rect8x96 => {
                assert(self.spec_params().5 * self.spec_params().6 == 28int) by (nonlinear_arith)
                    requires self.spec_params().5 == 28int, self.spec_params().6 == 1int;
                assert(self.spec_setup().spec_content_width() == 88);
                assert(self.spec_setup().spec_content_height() == 6);
                assert(self.spec_setup().spec_content_width() * self.spec_setup().spec_content_height() == 528int) by (nonlinear_arith)
                    requires self.spec_setup().spec_content_width() == 88int, self.spec_setup().spec_content_height() == 6int;
                assert(88int % 4int == 0 && 88int / 4int == 22int);
                assert(6int % 1int == 0 && 6int / 1int == 6int);
                assert(528int / 8int == 66int && 528int % 8int == 0int);
            },
            SymbolSize::Rect8x120 => {
                assert(self.spec_params().5 * self.spec_params().6 == 32int) by (nonlinear_arith)
                    requires self.spec_params().5 == 32int, self.spec_params().6 == 1int;
                assert(self.spec_setup().spec_content_width() == 108);
                assert(self.spec_setup().spec_content_height() == 6);
                assert(self.spec_setup().spec_content_width() * self.spec_setup().spec_content_height() == 648int) by (nonlinear_arith)
                    requires self.spec_setup().spec_content_width() == 108int, self.spec_setup().spec_content_height() == 6int;
                assert(108int % 6int == 0 && 108int / 6int == 18int);
                assert(6int % 1int == 0 && 6int / 1int == 6int);
                assert(648int / 8int == 81int && 648int % 8int == 0int);
            },
            SymbolSize::Rect8x144 => {
                assert(self.spec_params().5 * self.spec_params().6 == 36int) by (nonlinear_arith)
                    requires self.spec_params().5 == 18int, self.spec_params().6 == 2int;
                assert(self.spec_setup().spec_content_width() == 132);
                assert(self.spec_setup().spec_content_height() == 6);
                assert(self.spec_setup().spec_content_width() * self.spec_setup().spec_content_height() == 792int) by (nonlinear_arith)
                    requires self.spec_setup().spec_content_width() == 132int, self.spec_setup().spec_content_height() == 6int;
                assert(132int % 6int == 0 && 132int / 6int == 22int);
                assert(6int % 1int == 0 && 6int / 1int == 6int);
                assert(792int / 8int == 99int && 792int % 8int == 0int);
            },
            SymbolSize::Rect12x64 => {
                assert(self.spec_params().5 * self.spec_params().6 == 27int) by (nonlinear_arith)
                    requires self.spec_params().5 == 27int, self.spec_params().6 == 1int;
                assert(self.spec_setup().spec_content_width() == 56);
                assert(self.spec_setup().spec_content_height() == 10);
                assert(self.spec_setup().spec_content_width() * self.spec_setup().spec_content_height() == 560int) by (nonlinear_arith)
                    requires self.spec_setup().spec_content_width() == 56int, self.spec_setup().spec_content_height() == 10int;
                assert(56int % 4int == 0 && 56int / 4int == 14int);
                assert(10int % 1int == 0 && 10int / 1int == 10int);
                assert(560int / 8int == 70int && 560int % 8int == 0int);
            },
            SymbolSize::Rect12x88 => {
                assert(self.spec_params().5 * self.spec_params().6 == 36int) by (nonlinear_arith)
                    requires self.spec_params().5 == 18int, self.spec_params().6 == 2int;
                assert(self.spec_setup().spec_content_width() == 80);
                assert(self.spec_setup().spec_content_height() == 10);
                assert(self.spec_setup().spec_content_width() * self.spec_setup().spec_content_height() == 800int) by (nonlinear_arith)
                    requires self.spec_setup().spec_content_width() == 80int, self.spec_setup().spec_content_height() == 10int;
                assert(80int % 4int == 0 && 80int / 4int == 20int);
                assert(10int % 1int == 0 && 10int / 1int == 10int);
                assert(800int / 8int == 100int && 800int % 8int == 0int);
            },
            SymbolSize::Rect16x64 => {
                assert(self.spec_params().5 * self.spec_params().6 == 36int) by (nonlinear_arith)
                    requires self.spec_params().5 == 18int, self.spec_params().6 == 2int;
                assert(self.spec_setup().spec_content_width() == 56);
                assert(self.spec_setup().spec_content_height() == 14);
                assert(self.spec_setup().spec_content_width() * self.spec_setup().spec_content_height() == 784int) by (nonlinear_arith)
                    requires self.spec_setup().spec_content_width() == 56int, self.spec_setup().spec_content_height() == 14int;
                assert(56int % 4int == 0 && 56int / 4int == 14int);
                assert(14int % 1int == 0 && 14int / 1int == 14int);
                assert(784int / 8int == 98int && 784int % 8int == 0int);
            },
            SymbolSize::Rect20x36 => {
                assert(self.spec_params().5 * self.spec_params().6 == 28int) by (nonlinear_arith)
                    requires self.spec_params().5 == 28int, self.spec_params().6 == 1int;
                assert(self.spec_setup().spec_content_width() == 32);
                assert(self.spec_setup().spec_content_height() == 18);
                assert(self.spec_setup().spec_content_width() * self.spec_setup().spec_content_height() == 576int) by (nonlinear_arith)
                    requires self.spec_setup().spec_content_width() == 32int, self.spec_setup().spec_content_height() == 18int;
                assert(32int % 2int == 0 && 32int / 2int == 16int);
                assert(18int % 1int == 0 && 18int / 1int == 18int);
                assert(576int / 8int == 72int && 576int % 8int == 0int);
            },
            SymbolSize::Rect20x44 => {
                assert(self.spec_params().5 * self.spec_params().6 == 34int) by (nonlinear_arith)
                    requires self.spec_params().5 == 34int, self.spec_params().6 == 1int;
                assert(self.spec_setup().spec_content_width() == 40);
                assert(self.spec_setup().spec_content_height() == 18);
                assert(self.spec_setup().spec_content_width() * self.spec_setup().spec_content_height() == 720int) by (nonlinear_arith)
                    requires self.spec_setup().spec_content_width() == 40int, self.spec_setup().spec_content_height() == 18int;
                assert(40int % 2int == 0 && 40int / 2int == 20int);
                assert(18int % 1int == 0 && 18int / 1int == 18int);
                assert(720int / 8int == 90int && 720int % 8int == 0int);
            },
            SymbolSize::Rect20x64 => {
                assert(self.spec_params().5 * self.spec_params().6 == 42int) by (nonlinear_arith)
                    requires self.spec_params().5 == 21int, self.spec_params().6 == 2int;
                assert(self.spec_setup().spec_content_width() == 56);
                assert(self.spec_setup().spec_content_height() == 18);
                assert(self.spec_setup().spec_content_width() * self.spec_setup().spec_content_height() == 1008int) by (nonlinear_arith)
                    requires self.spec_setup().spec_content_width() == 56int, self.spec_setup().spec_content_height() == 18int;
                assert(56int % 4int == 0 && 56int / 4int == 14int);
                assert(18int % 1int == 0 && 18int / 1int == 18int);
                assert(1008int / 8int == 126int && 1008int % 8int == 0int);
            },
            SymbolSize::Rect22x48 => {
                assert(self.spec_params().5 * self.spec_params().6 == 38int) by (nonlinear_arith)
                    requires self.spec_params().5 == 38int, self.spec_params().6 == 1int;
                assert(self.spec_setup().spec_content_width() == 44);
                assert(self.spec_setup().spec_content_height() == 20);
                assert(self.spec_setup().spec_content_width() * self.spec_setup().spec_content_height() == 880int) by (nonlinear_arith)
                    requires self.spec_setup().spec_content_width() == 44int, self.spec_setup().spec_content_height() == 20int;
                assert(44int % 2int == 0 && 44int / 2int == 22int);
                assert(20int % 1int == 0 && 20int / 1int == 20int);
                assert(880int / 8int == 110int && 880int % 8int == 0int);
            },
            SymbolSize::Rect24x48 => {
                assert(self.spec_params().5 * self.spec_params().6 == 41int) by (nonlinear_arith)
                    requires self.spec_params().5 == 41int, self.spec_params().6 == 1int;
                assert(self.spec_setup().spec_content_width() == 44);
                assert(self.spec_setup().spec_content_height() == 22);
                assert(self.spec_setup().spec_content_width() * self.spec_setup().spec_content_height() == 968int) by (nonlinear_arith)
                    requires self.spec_setup().spec_content_width() == 44int, self.spec_setup().spec_content_height() == 22int;
                assert(44int % 2int == 0 && 44int / 2int == 22int);
                assert(22int % 1int == 0 && 22int / 1int == 22int);
                assert(968int / 8int == 121int && 968int % 8int == 0int);
            },
            SymbolSize::Rect24x64 => {
                assert(self.spec_params().5 * self.spec_params().6 == 46int) by (nonlinear_arith)
                    requires self.spec_params().5 == 23int, self.spec_params().6 == 2int;
                assert(self.spec_setup().spec_content_width() == 56);
                assert(self.spec_setup().spec_content_height() == 22);
                assert(self.spec_setup().spec_content_width() * self.spec_setup().spec_content_height() == 1232int) by (nonlinear_arith)
                    requires self.spec_setup().spec_content_width() == 56int, self.spec_setup().spec_content_height() == 22int;
                assert(56int % 4int == 0 && 56int / 4int == 14int);
                assert(22int % 1int == 0 && 22int / 1int == 22int);
                assert(1232int / 8int == 154int && 1232int % 8int == 0int);
            },
            SymbolSize::Rect26x40 => {
                assert(self.spec_params().5 * self.spec_params().6 == 38int) by (nonlinear_arith)
                    requires self.spec_params().5 == 38int, self.spec_params().6 == 1int;
                assert(self.spec_setup().spec_content_width() == 36);
                assert(self.spec_setup().spec_content_height() == 24);
                assert(self.spec_setup().spec_content_width() * self.spec_setup().spec_content_height() == 864int) by (nonlinear_arith)
                    requires self.spec_setup().spec_content_width() == 36int, self.spec_setup().spec_content_height() == 24int;
                assert(36int % 2int == 0 && 36int / 2int == 18int);
                assert(24int % 1int == 0 && 24int / 1int == 24int);
                assert(864int / 8int == 108int && 864int % 8int == 0int);
            },
            SymbolSize::Rect26x48 => {
                assert(self.spec_params().5 * self.spec_params().6 == 42int) by (nonlinear_arith)
                    requires self.spec_params().5 == 42int, self.spec_params().6 == 1int;
                assert(self.spec_setup().spec_content_width() == 44);
                assert(self.spec_setup().spec_content_height() == 24);
                assert(self.spec_setup().spec_content_width() * self.spec_setup().spec_content_height() == 1056int) by (nonlinear_arith)
                    requires self.spec_setup().spec_content_width() == 44int, self.spec_setup().spec_content_height() == 24int;
                assert(44int % 2int == 0 && 44int / 2int == 22int);
                assert(24int % 1int == 0 && 24int / 1int == 24int);
                assert(1056int / 8int == 132int && 1056int % 8int == 0int);
            },
            SymbolSize::Rect26x64 => {
                assert(self.spec_params().5 * self.spec_params().6 == 50int) by (nonlinear_arith)
                    requires self.spec_params().5 == 25int, self.spec_params().6 == 2int;
                assert(self.spec_setup().spec_content_width() == 56);
                assert(self.spec_setup().spec_content_height() == 24);
                assert(self.spec_setup().spec_content_width() * self.spec_setup().spec_content_height() == 1344int) by (nonlinear_arith)
                    requires self.spec_setup().spec_content_width() == 56int, self.spec_setup().spec_content_height() == 24int;
                assert(56int % 4int == 0 && 56int / 4int == 14int);
                assert(24int % 1int == 0 && 24int / 1int == 24int);
                assert(1344int / 8int == 168int && 1344int % 8int == 0int);
            },
        }
    }

    pub fn block_setup(&self) -> (setup: BlockSetup)
        ensures
            setup.spec_matches(*self),
            setup.wf(),
    {
        proof { self.lemma_table_consistent(); }
        match self {
            SymbolSize::Square10 => BlockSetup::make(10, 10, 0, 0, 3, 5, 1),
            SymbolSize::Square12 => BlockSetup::make(12, 12, 0, 0, 5, 7, 1),
            SymbolSize::Square14 => BlockSetup::make(14, 14, 0, 0, 8, 10, 1),
            SymbolSize::Square16 => BlockSetup::make(16, 16, 0, 0, 12, 12, 1),
            SymbolSize::Square18 => BlockSetup::make(18, 18, 0, 0, 18, 14, 1),
            SymbolSize::Square20 => BlockSetup::make(20, 20, 0, 0, 22, 18, 1),
            SymbolSize::Square22 => BlockSetup::make(22, 22, 0, 0, 30, 20, 1),
            SymbolSize::Square24 => BlockSetup::make(24, 24, 0, 0, 36, 24, 1),
            SymbolSize::Square26 => BlockSetup::make(26, 26, 0, 0, 44, 28, 1),
            SymbolSize::Square32 => BlockSetup::make(32, 32, 1, 1, 62, 36, 1),
            SymbolSize::Square36 => BlockSetup::make(36, 36, 1, 1, 86, 42, 1),
            SymbolSize::Square40 => BlockSetup::make(40, 40, 1, 1, 114, 48, 1),
            SymbolSize::Square44 => BlockSetup::make(44, 44, 1, 1, 144, 56, 1),
            SymbolSize::Square48 => BlockSetup::make(48, 48, 1, 1, 174, 68, 1),
            SymbolSize::Square52 => BlockSetup::make(52, 52, 1, 1, 204, 42, 2),
            SymbolSize::Square64 => BlockSetup::make(64, 64, 3, 3, 280, 56, 2),
            SymbolSize::Square72 => BlockSetup::make(72, 72, 3, 3, 368, 36, 4),
            SymbolSize::Square80 => BlockSetup::make(80, 80, 3, 3, 456, 48, 4),
            SymbolSize::Square88 => BlockSetup::make(88, 88, 3, 3, 576, 56, 4),
            SymbolSize::Square96 => BlockSetup::make(96, 96, 3, 3, 696, 68, 4),
            SymbolSize::Square104 => BlockSetup::make(104, 104, 3, 3, 816, 56, 6),
            SymbolSize::Square120 => BlockSetup::make(120, 120, 5, 5, 1050, 68, 6),
            SymbolSize::Square132 => BlockSetup::make(132, 132, 5, 5, 1304, 62, 8),
            SymbolSize::Square144 => BlockSetup::make(144, 144, 5, 5, 1558, 62, 10),
            SymbolSize::Rect8x18 => BlockSetup::make(8, 18, 0, 0, 5, 7, 1),
            SymbolSize::Rect8x32 => BlockSetup::make(8, 32, 1, 0, 10, 11, 1),
            SymbolSize::Rect12x26 => BlockSetup::make(12, 26, 0, 0, 16, 14, 1),
            SymbolSize::Rect12x36 => BlockSetup::make(12, 36, 1, 0, 22, 18, 1),
            SymbolSize::Rect16x36 => BlockSetup::make(16, 36, 1, 0, 32, 24, 1),
            SymbolSize::Rect16x48 => BlockSetup::make(16, 48, 1, 0, 49, 28, 1),
            SymbolSize::Rect8x48 => BlockSetup::make(8, 48, 1, 0, 18, 15, 1),
            SymbolSize::Rect8x64 => BlockSetup::make(8, 64, 3, 0, 24, 18, 1),
            SymbolSize::Rect8x80 => BlockSetup::make(8, 80, 3, 0, 32, 22, 1),
            SymbolSize::Rect8x96 => BlockSetup::make(8, 96, 3, 0, 38, 28, 1),
            SymbolSize::Rect8x120 => BlockSetup::make(8, 120, 5, 0, 49, 32, 1),
            SymbolSize::Rect8x144 => BlockSetup::make(8, 144, 5, 0, 63, 18, 2),
            SymbolSize::Rect12x64 => BlockSetup::make(12, 64, 3, 0, 43, 27, 1),
            SymbolSize::Rect12x88 => BlockSetup::make(12, 88, 3, 0, 64, 18, 2),
            SymbolSize::Rect16x64 => BlockSetup::make(16, 64, 3, 0, 62, 18, 2),
            SymbolSize::Rect20x36 => BlockSetup::make(20, 36, 1, 0, 44, 28, 1),
            SymbolSize::Rect20x44 => BlockSetup::make(20, 44, 1, 0, 56, 34, 1),
            SymbolSize::Rect20x64 => BlockSetup::make(20, 64, 3, 0, 84, 21, 2),
            SymbolSize::Rect22x48 => BlockSetup::make(22, 48, 1, 0, 72, 38, 1),
            SymbolSize::Rect24x48 => BlockSetup::make(24, 48, 1, 0, 80, 41, 1),
            SymbolSize::Rect24x64 => BlockSetup::make(24, 64, 3, 0, 108, 23, 2),
            SymbolSize::Rect26x40 => BlockSetup::make(26, 40, 1, 0, 70, 38, 1),
            SymbolSize::Rect26x48 => BlockSetup::make(26, 48, 1, 0, 90, 42, 1),
            SymbolSize::Rect26x64 => BlockSetup::make(26, 64, 3, 0, 118, 25, 2),
        }
    }
    /// Number of data codewords of the symbol.
    pub fn num_data_codewords(&self) -> (r: usize)
        ensures
            r == self.spec_num_data_codewords(),
    {
        match self {
            SymbolSize::Square10 => 3,
            SymbolSize::Square12 => 5,
            SymbolSize::Square14 => 8,
            SymbolSize::Square16 => 12,
            SymbolSize::Square18 => 18,
            SymbolSize::Square20 => 22,
            SymbolSize::Square22 => 30,
            SymbolSize::Square24 => 36,
            SymbolSize::Square26 => 44,
            SymbolSize::Square32 => 62,
            SymbolSize::Square36 => 86,
            SymbolSize::Square40 => 114,
            SymbolSize::Square44 => 144,
            SymbolSize::Square48 => 174,
            SymbolSize::Square52 => 204,
            SymbolSize::Square64 => 280,
            SymbolSize::Square72 => 368,
            SymbolSize::Square80 => 456,
            SymbolSize::Square88 => 576,
            SymbolSize::Square96 => 696,
            SymbolSize::Square104 => 816,
            SymbolSize::Square120 => 1050,
            SymbolSize::Square132 => 1304,
            SymbolSize::Square144 => 1558,
            SymbolSize::Rect8x18 => 5,
            SymbolSize::Rect8x32 => 10,
            SymbolSize::Rect12x26 => 16,
            SymbolSize::Rect12x36 => 22,
            SymbolSize::Rect16x36 => 32,
            SymbolSize::Rect16x48 => 49,
            SymbolSize::Rect8x48 => 18,
            SymbolSize::Rect8x64 => 24,
            SymbolSize::Rect8x80 => 32,
            SymbolSize::Rect8x96 => 38,
            SymbolSize::Rect8x120 => 49,
            SymbolSize::Rect8x144 => 63,
            SymbolSize::Rect12x64 => 43,
            SymbolSize::Rect12x88 => 64,
            SymbolSize::Rect16x64 => 62,
            SymbolSize::Rect20x36 => 44,
            SymbolSize::Rect20x44 => 56,
            SymbolSize::Rect20x64 => 84,
            SymbolSize::Rect22x48 => 72,
            SymbolSize::Rect24x48 => 80,
            SymbolSize::Rect24x64 => 108,
            SymbolSize::Rect26x40 => 70,
            SymbolSize::Rect26x48 => 90,
            SymbolSize::Rect26x64 => 118,
        }
    }

    /// Number of codewords of the symbol, error correction included.
    pub fn num_codewords(&self) -> (r: usize)
        ensures
            r == self.spec_num_codewords(),
    {
        proof { self.lemma_table_consistent(); }
        let setup = self.block_setup();
        self.num_data_codewords() + setup.num_ecc_per_block * setup.num_ecc_blocks
    }

    /// Whether the mapping matrix has four modules left over, which are
    /// filled with a fixed pattern.
    pub fn has_padding_modules(&self) -> (r: bool)
        ensures
            r == (self.spec_setup().spec_content_width() * self.spec_setup().spec_content_height()
                % 8 != 0),
    {
        proof { self.lemma_table_consistent(); }
        let setup = self.block_setup();
        let area: usize = setup.content_width() * setup.content_height();
        area % 8 != 0
    }
}

/// An ordered list of the symbol sizes that an encoder may choose from.
///
/// The encoder takes the first size in the list that is big enough.
#[derive(Debug, Clone, PartialEq, Eq)]
pub struct SymbolList {
    symbols: Vec<SymbolSize>,
}

/// The first size of `sizes` that holds at least `n` data codewords.
pub open spec fn spec_first_fit(sizes: Seq<SymbolSize>, n: int) -> Option<SymbolSize>
    decreases sizes.len(),
{
    if sizes.len() == 0 {
        None
    } else if sizes[0].spec_num_data_codewords() >= n {
        Some(sizes[0])
    } else {
        spec_first_fit(sizes.drop_first(), n)
    }
}

/// All symbol sizes, ordered by their number of data codewords.
pub open spec fn spec_all_sizes() -> Seq<SymbolSize> {
    seq![
        SymbolSize::Square10,
        SymbolSize::Square12,
        SymbolSize::Rect8x18,
        SymbolSize::Square14,
        SymbolSize::Rect8x32,
        SymbolSize::Square16,
        SymbolSize::Rect12x26,
        SymbolSize::Square18,
        SymbolSize::Rect8x48,
        SymbolSize::Square20,
        SymbolSize::Rect12x36,
        SymbolSize::Rect8x64,
        SymbolSize::Square22,
        SymbolSize::Rect16x36,
        SymbolSize::Rect8x80,
        SymbolSize::Square24,
        SymbolSize::Rect8x96,
        SymbolSize::Rect12x64,
        SymbolSize::Square26,
        SymbolSize::Rect20x36,
        SymbolSize::Rect16x48,
        SymbolSize::Rect8x120,
        SymbolSize::Rect20x44,
        SymbolSize::Square32,
        SymbolSize::Rect16x64,
        SymbolSize::Rect8x144,
        SymbolSize::Rect12x88,
        SymbolSize::Rect26x40,
        SymbolSize::Rect22x48,
        SymbolSize::Rect24x48,
        SymbolSize::Rect20x64,
        SymbolSize::Square36,
        SymbolSize::Rect26x48,
        SymbolSize::Rect24x64,
        SymbolSize::Square40,
        SymbolSize::Rect26x64,
        SymbolSize::Square44,
        SymbolSize::Square48,
        SymbolSize::Square52,
        SymbolSize::Square64,
        SymbolSize::Square72,
        SymbolSize::Square80,
        SymbolSize::Square88,
        SymbolSize::Square96,
        SymbolSize::Square104,
        SymbolSize::Square120,
        SymbolSize::Square132,
        SymbolSize::Square144,
    ]
}

/// The square and rectangular sizes of ISO/IEC 16022 (the rectangular
/// extension excluded), ordered by their number of data codewords.
pub open spec fn spec_default_sizes() -> Seq<SymbolSize> {
    seq![
        SymbolSize::Square10,
        SymbolSize::Square12,
        SymbolSize::Rect8x18,
        SymbolSize::Square14,
        SymbolSize::Rect8x32,
        SymbolSize::Square16,
        SymbolSize::Rect12x26,
        SymbolSize::Square18,
        SymbolSize::Square20,
        SymbolSize::Rect12x36,
        SymbolSize::Square22,
        SymbolSize::Rect16x36,
        SymbolSize::Square24,
        SymbolSize::Square26,
        SymbolSize::Rect16x48,
        SymbolSize::Square32,
        SymbolSize::Square36,
        SymbolSize::Square40,
        SymbolSize::Square44,
        SymbolSize::Square48,
        SymbolSize::Square52,
        SymbolSize::Square64,
        SymbolSize::Square72,
        SymbolSize::Square80,
        SymbolSize::Square88,
        SymbolSize::Square96,
        SymbolSize::Square104,
        SymbolSize::Square120,
        SymbolSize::Square132,
        SymbolSize::Square144,
    ]
}

impl View for SymbolList {
    type V = Seq<SymbolSize>;

    closed spec fn view(&self) -> Seq<SymbolSize> {
        self.symbols@
    }
}

proof fn lemma_first_fit_skip(sizes: Seq<SymbolSize>, n: int, i: int)
    requires
        0 <= i < sizes.len(),
        forall|k: int| 0 <= k < i ==> #[trigger] sizes[k].spec_num_data_codewords() < n,
    ensures
        spec_first_fit(sizes, n) == spec_first_fit(sizes.skip(i), n),
    decreases i,
{
    if i > 0 {
        assert(sizes.skip(1) =~= sizes.drop_first());
        lemma_first_fit_skip(sizes.drop_first(), n, i - 1);
        assert(sizes.drop_first().skip(i - 1) =~= sizes.skip(i));
    } else {
        assert(sizes.skip(0) =~= sizes);
    }
}

proof fn lemma_first_fit_none(sizes: Seq<SymbolSize>, n: int)
    requires
        forall|k: int| 0 <= k < sizes.len() ==> #[trigger] sizes[k].spec_num_data_codewords() < n,
    ensures
        spec_first_fit(sizes, n) is None,
    decreases sizes.len(),
{
    if sizes.len() > 0 {
        lemma_first_fit_none(sizes.drop_first(), n);
    }
}

pub proof fn lemma_first_fit_in(sizes: Seq<SymbolSize>, n: int)
    ensures
        spec_first_fit(sizes, n) matches Some(s) ==> sizes.contains(s)
            && s.spec_num_data_codewords() >= n,
    decreases sizes.len(),
{
    if sizes.len() > 0 {
        lemma_first_fit_in(sizes.drop_first(), n);
        if let Some(s) = spec_first_fit(sizes.drop_first(), n) {
            if sizes[0].spec_num_data_codewords() < n {
                let k = choose|k: int| 0 <= k < sizes.drop_first().len() && sizes.drop_first()[k] == s;
                assert(sizes[k + 1] == s);
            }
        }
    }
}

impl SymbolList {
    /// All symbol sizes, the rectangular extension (DMRE) included, ordered by capacity.
    pub fn all() -> (r: SymbolList)
        ensures
            r@ == spec_all_sizes(),
    {
        let v: Vec<SymbolSize> = vec![
            SymbolSize::Square10,
            SymbolSize::Square12,
            SymbolSize::Rect8x18,
            SymbolSize::Square14,
            SymbolSize::Rect8x32,
            SymbolSize::Square16,
            SymbolSize::Rect12x26,
            SymbolSize::Square18,
            SymbolSize::Rect8x48,
            SymbolSize::Square20,
            SymbolSize::Rect12x36,
            SymbolSize::Rect8x64,
            SymbolSize::Square22,
            SymbolSize::Rect16x36,
            SymbolSize::Rect8x80,
            SymbolSize::Square24,
            SymbolSize::Rect8x96,
            SymbolSize::Rect12x64,
            SymbolSize::Square26,
            SymbolSize::Rect20x36,
            SymbolSize::Rect16x48,
            SymbolSize::Rect8x120,
            SymbolSize::Rect20x44,
            SymbolSize::Square32,
            SymbolSize::Rect16x64,
            SymbolSize::Rect8x144,
            SymbolSize::Rect12x88,
            SymbolSize::Rect26x40,
            SymbolSize::Rect22x48,
            SymbolSize::Rect24x48,
            SymbolSize::Rect20x64,
            SymbolSize::Square36,
            SymbolSize::Rect26x48,
            SymbolSize::Rect24x64,
            SymbolSize::Square40,
            SymbolSize::Rect26x64,
            SymbolSize::Square44,
            SymbolSize::Square48,
            SymbolSize::Square52,
            SymbolSize::Square64,
            SymbolSize::Square72,
            SymbolSize::Square80,
            SymbolSize::Square88,
            SymbolSize::Square96,
            SymbolSize::Square104,
            SymbolSize::Square120,
            SymbolSize::Square132,
            SymbolSize::Square144,
        ];
        proof { assert(v@ =~= spec_all_sizes()); }
        SymbolList { symbols: v }
    }

    /// The square and rectangular sizes of ISO/IEC 16022 without the
    /// rectangular extension, ordered by capacity.
    pub fn default() -> (r: SymbolList)
        ensures
            r@ == spec_default_sizes(),
    {
        let v: Vec<SymbolSize> = vec![
            SymbolSize::Square10,
            SymbolSize::Square12,
            SymbolSize::Rect8x18,
            SymbolSize::Square14,
            SymbolSize::Rect8x32,
            SymbolSize::Square16,
            SymbolSize::Rect12x26,
            SymbolSize::Square18,
            SymbolSize::Square20,
            SymbolSize::Rect12x36,
            SymbolSize::Square22,
            SymbolSize::Rect16x36,
            SymbolSize::Square24,
            SymbolSize::Square26,
            SymbolSize::Rect16x48,
            SymbolSize::Square32,
            SymbolSize::Square36,
            SymbolSize::Square40,
            SymbolSize::Square44,
            SymbolSize::Square48,
            SymbolSize::Square52,
            SymbolSize::Square64,
            SymbolSize::Square72,
            SymbolSize::Square80,
            SymbolSize::Square88,
            SymbolSize::Square96,
            SymbolSize::Square104,
            SymbolSize::Square120,
            SymbolSize::Square132,
            SymbolSize::Square144,
        ];
        proof { assert(v@ =~= spec_default_sizes()); }
        SymbolList { symbols: v }
    }

    /// A list with the single size `size`.
    pub fn from_size(size: SymbolSize) -> (r: SymbolList)
        ensures
            r@ == seq![size],
    {
        let mut v: Vec<SymbolSize> = Vec::new();
        v.push(size);
        proof { assert(v@ =~= seq![size]); }
        SymbolList { symbols: v }
    }

    /// The sizes of the list, in order.
    pub fn sizes(&self) -> (r: &[SymbolSize])
        ensures
            r@ == self@,
    {
        self.symbols.as_slice()
    }

    /// Whether the list holds no size.
    pub fn is_empty(&self) -> (r: bool)
        ensures
            r == (self@.len() == 0),
    {
        self.symbols.len() == 0
    }

    /// The first size of the list that holds `num_codewords` data codewords.
    pub fn first_symbol_big_enough_for(&self, num_codewords: usize) -> (r: Option<SymbolSize>)
        ensures
            r == spec_first_fit(self@, num_codewords as int),
    {
        let mut i: usize = 0;
        while i < self.symbols.len()
            invariant
                0 <= i <= self.symbols.len(),
                forall|k: int| 0 <= k < i ==> #[trigger] self@[k].spec_num_data_codewords()
                    < num_codewords,
            decreases self.symbols.len() - i,
        {
            let s = self.symbols[i];
            if s.num_data_codewords() >= num_codewords {
                proof {
                    lemma_first_fit_skip(self@, num_codewords as int, i as int);
                }
                return Some(s);
            }
            i += 1;
        }
        proof { lemma_first_fit_none(self@, num_codewords as int); }
        None
    }

    /// Free data codewords of the first size that holds `num_codewords` data
    /// codewords, or `None` if no size of the list is big enough.
    pub fn space_left_for(&self, num_codewords: usize) -> (r: Option<usize>)
        ensures
            r == (match spec_first_fit(self@, num_codewords as int) {
                Some(s) => Some((s.spec_num_data_codewords() - num_codewords) as usize),
                None => None,
            }),
    {
        proof { lemma_first_fit_in(self@, num_codewords as int); }
        match self.first_symbol_big_enough_for(num_codewords) {
            Some(s) => Some(s.num_data_codewords() - num_codewords),
            None => None,
        }
    }
}

} // verus!
