//! Data Matrix (ECC 200) decoding and encoding.
//!
//! A symbol is read from its modules with [DataMatrix::decode] or
//! [DataMatrix::decode_message]; quarter turns and reflectance reversal are
//! tried automatically. Messages made of data and control segments are
//! encoded with [DataMatrix::encode_segments]; the symbol is drawn from
//! [DataMatrix::bitmap].
#![allow(unused_imports)]

pub mod symbol_size;
pub mod errorcode;
pub mod encodation;
pub mod decodation;
pub mod placement;
pub mod data;
pub mod gpui;

pub use symbol_size::{SymbolList, SymbolSize};
pub use data::DataMatrixSegment;
pub use decodation::DecodedMessage;
pub use encodation::{DataEncodingError, EncodationType, Fnc1Position};

use vstd::prelude::*;
use placement::{Bitmap, BitmapConversionError, MatrixMap};
use errorcode::{ErrorDecodingError, block_ecc};
use decodation::{DataDecodingError, spec_decode_data, spec_decode_parts};
use data::{segments_result, spec_pad, spec_segment_codewords, only_data, decodable_segments, segments_data, segments_ecis};

verus! {

/// An encoded Data Matrix.
#[derive(Clone, Debug, PartialEq, Eq)]
pub struct DataMatrix {
    size: SymbolSize,
    codewords: Vec<u8>,
    num_data_codewords: usize,
}

/// The codewords of a symbol of `size` with the data codewords `data`: the
/// data codewords, then the interleaved error correction codewords.
pub open spec fn spec_symbol_codewords(data: Seq<u8>, size: SymbolSize) -> Seq<u8> {
    let setup = size.spec_setup();
    let blocks = setup.num_ecc_blocks as int;
    let n = setup.num_ecc_per_block as nat;
    data + Seq::new((n * blocks) as nat, |p: int| block_ecc(data, p % blocks, blocks, n)[p / blocks].0)
}

/// Adds the error correction codewords to the data codewords of a symbol of `size`.
pub fn finish_encoding(codewords: Vec<u8>, size: SymbolSize) -> (m: DataMatrix)
    requires
        codewords@.len() == size.spec_num_data_codewords(),
    ensures
        m.spec_size() == size,
        m.spec_codewords() == spec_symbol_codewords(codewords@, size),
        m.spec_num_data_codewords() == codewords@.len(),
        m.wf(),
{
    proof { size.lemma_table_consistent(); }
    let ecc = match errorcode::encode_error(codewords.as_slice(), size) {
        Ok(e) => e,
        Err(_) => Vec::new(),
    };
    let num_data_codewords = codewords.len();
    let mut codewords = codewords;
    let ghost data = codewords@;
    let mut k: usize = 0;
    while k < ecc.len()
        invariant
            k <= ecc@.len(),
            codewords@ == data + ecc@.take(k as int),
        decreases ecc@.len() - k,
    {
        codewords.push(ecc[k]);
        k += 1;
        assert(codewords@ =~= data + ecc@.take(k as int));
    }
    proof {
        assert(ecc@.take(ecc@.len() as int) =~= ecc@);
        let setup = size.spec_setup();
        let blocks = setup.num_ecc_blocks as int;
        let n = setup.num_ecc_per_block as nat;
        assert(ecc@ =~= Seq::new((n * blocks) as nat, |p: int| block_ecc(data, p % blocks, blocks, n)[p / blocks].0));
    }
    DataMatrix { size, codewords, num_data_codewords }
}

/// Failure to decode a Data Matrix.
#[derive(Debug, Clone, PartialEq, Eq)]
pub enum DecodingError {
    /// The pixels could not be mapped to a [symbol size](SymbolSize): no size
    /// has the dimensions, or the alignment pattern is invalid.
    PixelConversion(BitmapConversionError),
    /// The error correction failed: the symbol was not encoded correctly, or
    /// there are too many detection errors (wrong dark or light squares).
    ErrorCorrection(ErrorDecodingError),
    /// The data codewords could not be decoded.
    DataDecoding(DataDecodingError),
}

impl DataMatrix {
    /// The number of codewords fits the symbol size.
    pub closed spec fn wf(&self) -> bool {
        &&& self.codewords@.len() == self.size.spec_num_codewords()
        &&& self.num_data_codewords == self.size.spec_num_data_codewords()
    }

    /// The symbol size.
    pub closed spec fn spec_size(&self) -> SymbolSize {
        self.size
    }

    /// All codewords, error correction included.
    pub closed spec fn spec_codewords(&self) -> Seq<u8> {
        self.codewords@
    }

    /// The number of data codewords.
    pub closed spec fn spec_num_data_codewords(&self) -> int {
        self.num_data_codewords as int
    }

    /// The symbol size of the encoded Data Matrix.
    pub fn size(&self) -> (r: SymbolSize)
        ensures
            r == self.spec_size(),
    {
        self.size
    }

    /// The encoded data, error correction included; see
    /// [data_codewords()](Self::data_codewords) for the data alone.
    pub fn codewords(&self) -> (r: &[u8])
        requires
            self.wf(),
        ensures
            r@ == self.spec_codewords(),
            r@.len() == self.spec_size().spec_num_codewords(),
    {
                self.codewords.as_slice()
    }

    /// The codewords that encode the data: a prefix of [codewords()](Self::codewords).
    pub fn data_codewords(&self) -> (r: &[u8])
        requires
            self.wf(),
        ensures
            r@ == self.spec_codewords().take(self.spec_num_data_codewords()),
            r@.len() == self.spec_size().spec_num_data_codewords(),
    {
        proof {
            self.size.lemma_table_consistent();
        }
        let r = vstd::slice::slice_subrange(self.codewords.as_slice(), 0, self.num_data_codewords);
        assert(r@ =~= self.codewords@.take(self.num_data_codewords as int));
        r
    }

    /// The abstract bitmap of the Data Matrix.
    pub fn bitmap(&self) -> (b: Bitmap)
        requires
            self.wf(),
        ensures
            b.wf(),
            b.spec_width() == self.spec_size().spec_setup().width,
            b.spec_height() == self.spec_size().spec_setup().height,
            exists|m: MatrixMap| #[trigger] m.fits(self.spec_size()) && placement::bitmap_shows(b, m)
                && m.spec_entries() == placement::spec_symbol_modules(self.spec_codewords(), self.spec_size().spec_setup()),
    {
        let map = match MatrixMap::new_with_codewords(self.codewords.as_slice(), self.size) {
            Ok(m) => m,
            Err(_) => MatrixMap::new(self.size),
        };
        let b = map.bitmap();
        proof {
            assert(map.fits(self.size));
            assert(placement::bitmap_shows(b, map));
            assert(b.spec_width() == self.size.spec_setup().width);
        }
        b
    }

    /// Encodes a message of data and control segments.
    ///
    /// The data of the segments is written with the ASCII encodation; see
    /// [data::encode_data_segments].
    pub fn encode_segments(segments: &[DataMatrixSegment], symbol_list: SymbolList)
        -> (r: Result<DataMatrix, DataEncodingError>)
        ensures
            encoded_segments(r, segments@, symbol_list@, None, false),
    {
        DataMatrixBuilder::new().with_symbol_list(symbol_list).encode_segments(segments)
    }

    /// Decodes a Data Matrix from its modules.
    ///
    /// The finder and alignment patterns must be included, the quiet zone
    /// removed; `width` is the number of modules per row, the modules come row
    /// by row from the top. The four quarter turns and reflectance reversal
    /// are tried.
    ///
    /// Returns the raw data bytes; see [decode_message()](Self::decode_message)
    /// for the FNC1 position, the ECI spans and the transmission format.
    /// Symbols with an ECI or a Reader Programming flag are refused here.
    pub fn decode(pixels: &[bool], width: usize) -> (r: Result<Vec<u8>, DecodingError>)
        ensures
            width == 0 ==> r == Err::<Vec<u8>, DecodingError>(DecodingError::PixelConversion(
                BitmapConversionError::ZeroWidth)),
            width > 0 && (pixels@.len() as int) % (width as int) != 0 ==> r == Err::<Vec<u8>, DecodingError>(
                DecodingError::PixelConversion(BitmapConversionError::DataSize)),
            r matches Ok(v) ==> exists|c: Seq<u8>| spec_decode_data(c) == Ok::<Seq<u8>, DataDecodingError>(v@),
            forall|m: MatrixMap, b: Bitmap| #[trigger] shows_clean_symbol(pixels@, width as int, m, b) ==> exists|
                s: SymbolSize,
            | #[trigger] m.fits(s) && match spec_decode_data(
                placement::spec_read_codewords(m).take(s.spec_num_data_codewords()),
            ) {
                Ok(out) => r matches Ok(v) && v@ == out,
                Err(e) => r == Err::<Vec<u8>, DecodingError>(DecodingError::DataDecoding(e)),
            },
            width > 0 && (pixels@.len() as int) % (width as int) == 0 && (exists|k: int|
                0 <= k < 8 && #[trigger] round_shows_clean(pixels@, width as int, k)) ==> (r is Ok || r matches Err(
                DecodingError::DataDecoding(_))),
    {
        let data_codewords = Self::data_codewords_from_pixels(pixels, width)?;
        match decodation::decode_data(data_codewords.as_slice()) {
            Ok(v) => Ok(v),
            Err(e) => Err(DecodingError::DataDecoding(e)),
        }
    }

    /// Decodes a Data Matrix from its modules, with the metadata of the transmission.
    ///
    /// Unlike [decode()](Self::decode) it accepts symbols with an ECI; the
    /// FNC1 position, the ECI spans, the Reader Programming flag, the
    /// symbology identifier and the transmission bytes come with the
    /// [DecodedMessage].
    pub fn decode_message(pixels: &[bool], width: usize) -> (r: Result<DecodedMessage, DecodingError>)
        ensures
            width == 0 ==> r == Err::<DecodedMessage, DecodingError>(DecodingError::PixelConversion(
                BitmapConversionError::ZeroWidth)),
            width > 0 && (pixels@.len() as int) % (width as int) != 0 ==> r == Err::<DecodedMessage, DecodingError>(
                DecodingError::PixelConversion(BitmapConversionError::DataSize)),
            forall|m: MatrixMap, b: Bitmap| #[trigger] shows_clean_symbol(pixels@, width as int, m, b) ==> exists|
                s: SymbolSize,
            | #[trigger] m.fits(s) && match spec_decode_parts(
                placement::spec_read_codewords(m).take(s.spec_num_data_codewords()),
                true,
            ) {
                Ok((o, e, f, rp)) => r matches Ok(msg) && msg.spec_data() == o && msg.spec_eci_spans() == e
                    && msg.spec_fnc1() == f && msg.spec_reader_programming() == rp,
                Err(e) => r == Err::<DecodedMessage, DecodingError>(DecodingError::DataDecoding(e)),
            },
            width > 0 && (pixels@.len() as int) % (width as int) == 0 && (exists|k: int|
                0 <= k < 8 && #[trigger] round_shows_clean(pixels@, width as int, k)) ==> (r is Ok || r matches Err(
                DecodingError::DataDecoding(_))),
    {
        let data_codewords = Self::data_codewords_from_pixels(pixels, width)?;
        match decodation::decode_message(data_codewords.as_slice()) {
            Ok(m) => Ok(m),
            Err(e) => Err(DecodingError::DataDecoding(e)),
        }
    }

    /// The data codewords of the pixels, after error correction.
    fn data_codewords_from_pixels(pixels: &[bool], width: usize) -> (r: Result<Vec<u8>, DecodingError>)
        ensures
            width == 0 ==> r == Err::<Vec<u8>, DecodingError>(DecodingError::PixelConversion(
                BitmapConversionError::ZeroWidth)),
            width > 0 && (pixels@.len() as int) % (width as int) != 0 ==> r == Err::<Vec<u8>, DecodingError>(
                DecodingError::PixelConversion(BitmapConversionError::DataSize)),
            forall|m: MatrixMap, b: Bitmap| #[trigger] shows_clean_symbol(pixels@, width as int, m, b) ==> exists|
                s: SymbolSize,
            | #[trigger] m.fits(s) && (r matches Ok(c) && c@ == placement::spec_read_codewords(m).take(
                s.spec_num_data_codewords(),
            )),
            width > 0 && (pixels@.len() as int) % (width as int) == 0 && (exists|k: int|
                0 <= k < 8 && #[trigger] round_shows_clean(pixels@, width as int, k)) ==> r is Ok,
    {
        let ghost good = exists|m: MatrixMap, b: Bitmap| #[trigger] shows_clean_symbol(pixels@, width as int, m, b);
        proof {
            if good {
                let (m0, b0) = choose|m: MatrixMap, b: Bitmap| #[trigger] shows_clean_symbol(pixels@, width as int, m, b);
                assert(b0.wf());
                assert(b0.spec_width() > 0);
                assert((pixels@.len() as int) % (width as int) == 0);
            }
        }
        if width == 0 {
            return Err(DecodingError::PixelConversion(BitmapConversionError::ZeroWidth));
        }
        if pixels.len() % width != 0 {
            return Err(DecodingError::PixelConversion(BitmapConversionError::DataSize));
        }
        let mut first_conversion_error: Option<BitmapConversionError> = None;
        let mut first_ecc_error: Option<ErrorDecodingError> = None;
        // Orientation independence and reflectance reversal: the transforms
        // that remain once a detector has found the module grid.
        let mut round: usize = 0;
        while round < 8
            invariant
                round <= 8,
                width > 0,
                (pixels@.len() as int) % (width as int) == 0,
                good == exists|m: MatrixMap, b: Bitmap| #[trigger] shows_clean_symbol(pixels@, width as int, m, b),
                good ==> round == 0,
                (exists|k: int| 0 <= k < 8 && #[trigger] round_shows_clean(pixels@, width as int, k)) ==> exists|k: int|
                    round <= k < 8 && #[trigger] round_shows_clean(pixels@, width as int, k),
            decreases 8 - round,
        {
            let ghost first = round == 0;
            let ghost this_round = round as int;
            let ghost cur = round_shows_clean(pixels@, width as int, this_round);
            let inverted = round >= 4;
            let quarter_turns = round % 4;
            round += 1;
            let (candidate, candidate_width) = match transform_modules(pixels, width, quarter_turns, inverted) {
                Some(t) => t,
                None => return Err(DecodingError::PixelConversion(BitmapConversionError::ArithmeticOverflow)),
            };
            proof {
                if first {
                    lemma_transform_identity(pixels@, width as int);
                }
            }
            let tr = MatrixMap::try_from_bits(candidate.as_slice(), candidate_width);
            proof {
                if good {
                    let (m0, b0) = choose|m: MatrixMap, b: Bitmap| #[trigger] shows_clean_symbol(pixels@, width as int, m, b);
                    placement::lemma_bitmap_round_trip(m0, b0, tr);
                }
                if cur {
                    let (m1, b1) = choose|m: MatrixMap, b: Bitmap| #[trigger] shows_clean_symbol(
                        round_pixels(pixels@, width as int, this_round),
                        round_width(pixels@, width as int, this_round),
                        m,
                        b,
                    );
                    assert(candidate@ == round_pixels(pixels@, width as int, this_round));
                    assert(candidate_width == round_width(pixels@, width as int, this_round));
                    placement::lemma_bitmap_round_trip(m1, b1, tr);
                }
            }
            let (matrix_map, size) = match tr {
                Ok(value) => value,
                Err(error) => {
                    if first_conversion_error.is_none() {
                        first_conversion_error = Some(error);
                    }
                    continue;
                },
            };
            proof {
                if good {
                    let (m0, b0) = choose|m: MatrixMap, b: Bitmap| #[trigger] shows_clean_symbol(pixels@, width as int, m, b);
                    lemma_clean_symbol_read(pixels@, width as int, matrix_map, size, tr, m0, b0);
                }
                if cur {
                    let (m1, b1) = choose|m: MatrixMap, b: Bitmap| #[trigger] shows_clean_symbol(
                        round_pixels(pixels@, width as int, this_round),
                        round_width(pixels@, width as int, this_round),
                        m,
                        b,
                    );
                    lemma_clean_symbol_read(candidate@, candidate_width as int, matrix_map, size, tr, m1, b1);
                }
                size.lemma_table_consistent();
            }
            let mut codewords = matrix_map.codewords();
            let ghost read = codewords@;
            match errorcode::decode_error(&mut codewords, size) {
                Ok(()) => {},
                Err(error) => {
                    if first_ecc_error.is_none() {
                        first_ecc_error = Some(error);
                    }
                    continue;
                },
            }
            let num_data = size.num_data_codewords();
            if num_data > codewords.len() {
                return Err(DecodingError::ErrorCorrection(ErrorDecodingError::Malfunction));
            }
            codewords.truncate(num_data);
            proof {
                if good {
                    assert(codewords@ == read.take(num_data as int));
                    assert forall|m: MatrixMap, b: Bitmap| #[trigger] shows_clean_symbol(pixels@, width as int, m, b)
                        implies m.fits(size) && codewords@ == placement::spec_read_codewords(m).take(
                        size.spec_num_data_codewords()) by {
                    }
                }
            }
            return Ok(codewords);
        }
        match first_ecc_error {
            Some(error) => Err(DecodingError::ErrorCorrection(error)),
            None => match first_conversion_error {
                Some(error) => Err(DecodingError::PixelConversion(error)),
                None => Err(DecodingError::PixelConversion(BitmapConversionError::SymbolSize)),
            },
        }
    }
}

/// Whether `pixels`, `width` modules per row, are the bitmap `b` of the
/// mapping matrix `m` with its padding pattern, and the codewords that `m`
/// holds pass the error correction unchanged.
pub open spec fn shows_clean_symbol(pixels: Seq<bool>, width: int, m: MatrixMap, b: Bitmap) -> bool {
    &&& m.wf()
    &&& forall|s: SymbolSize| #[trigger] m.fits(s) ==> placement::padding_pattern(m.spec_entries(), s.spec_setup())
        && errorcode::decoding::syndrome_based::symbol_is_clean(placement::spec_read_codewords(m), s)
    &&& placement::bitmap_shows(b, m)
    &&& b.spec_bits() == pixels
    &&& b.spec_width() == width
}

/// The width of the pixels after the transform that the decoder tries in
/// round `k`.
pub open spec fn round_width(pixels: Seq<bool>, width: int, k: int) -> int {
    if k % 4 == 0 || k % 4 == 2 {
        width
    } else {
        (pixels.len() as int) / width
    }
}

/// The pixels after the transform that the decoder tries in round `k`:
/// `k % 4` clockwise quarter turns, and reflectance reversal from round 4 on.
pub open spec fn round_pixels(pixels: Seq<bool>, width: int, k: int) -> Seq<bool> {
    spec_transformed(pixels, width, k % 4, k >= 4)
}

/// Whether the pixels, after the transform of round `k` (`k % 4` clockwise
/// quarter turns, and reflectance reversal from round 4 on), show a clean
/// symbol.
pub open spec fn round_shows_clean(pixels: Seq<bool>, width: int, k: int) -> bool {
    exists|m: MatrixMap, b: Bitmap| #[trigger] shows_clean_symbol(
        round_pixels(pixels, width, k),
        round_width(pixels, width, k),
        m,
        b,
    )
}

/// The matrix read from the pixels of a clean symbol holds its codewords:
/// every clean symbol that the pixels show has the size that was read and
/// the codewords of the matrix that was read.
proof fn lemma_clean_symbol_read(
    pixels: Seq<bool>,
    width: int,
    m2: MatrixMap,
    size: SymbolSize,
    tr: Result<(MatrixMap, SymbolSize), BitmapConversionError>,
    m0: MatrixMap,
    b0: Bitmap,
)
    requires
        tr == Ok::<(MatrixMap, SymbolSize), BitmapConversionError>((m2, size)),
        placement::read_matches(pixels, width, tr),
        placement::accepts_symbols(pixels, width, tr),
        shows_clean_symbol(pixels, width, m0, b0),
    ensures
        forall|m: MatrixMap, b: Bitmap| #[trigger] shows_clean_symbol(pixels, width, m, b) ==> m.fits(size)
            && placement::spec_read_codewords(m) == placement::spec_read_codewords(m2),
        placement::spec_read_codewords(m2).len() == size.spec_num_codewords(),
        errorcode::decoding::syndrome_based::symbol_is_clean(placement::spec_read_codewords(m2), size),
{
    assert forall|m: MatrixMap, b: Bitmap| #[trigger] shows_clean_symbol(pixels, width, m, b) implies m.fits(size)
        && placement::spec_read_codewords(m) == placement::spec_read_codewords(m2) by {
        placement::lemma_bitmap_round_trip(m, b, tr);
        placement::lemma_fits_layout(m, m2, size);
        assert(placement::spec_read_codewords(m) =~= placement::spec_read_codewords(m2));
    }
    placement::lemma_bitmap_round_trip(m0, b0, tr);
    placement::lemma_fits_layout(m0, m2, size);
    assert(m0.fits(size));
}

/// Transforming with no turn and no reversal leaves the modules as they are.
proof fn lemma_transform_identity(p: Seq<bool>, w: int)
    requires
        w > 0,
    ensures
        spec_transformed(p, w, 0, false) == p,
{
    assert forall|i: int| 0 <= i < p.len() implies #[trigger] turn_source(i, w, (p.len() as int) / w, 0) == i by {
        vstd::arithmetic::div_mod::lemma_fundamental_div_mod(i, w);
        assert((i / w) * w == w * (i / w)) by (nonlinear_arith);
    }
    assert(spec_transformed(p, w, 0, false) =~= p);
}

/// Whether `r` is the symbol that encodes the segments: the error correction
/// added to the data codewords of [data::encode_data_segments], or its error.
pub open spec fn encoded_segments(
    r: Result<DataMatrix, DataEncodingError>,
    segs: Seq<DataMatrixSegment>,
    list: Seq<SymbolSize>,
    fnc1: Option<Fnc1Position>,
    reader_programming: bool,
) -> bool {
    if list.len() == 0 {
        r == Err::<DataMatrix, DataEncodingError>(DataEncodingError::SymbolListEmpty)
    } else {
        match spec_segment_codewords(segs, fnc1, reader_programming) {
            Err(e) => r == Err::<DataMatrix, DataEncodingError>(e),
            Ok(c) => match spec_pad(c, list) {
                Err(e) => r == Err::<DataMatrix, DataEncodingError>(e),
                Ok((cw, size)) => r matches Ok(m) && m.wf() && m.spec_size() == size
                    && m.spec_codewords() == spec_symbol_codewords(cw, size)
                    && m.spec_num_data_codewords() == cw.len(),
            },
        }
    }
}

/// Encoding a message of [decodable segments](data::decodable_segments)
/// (data, ECI up to 999999, FNC1 after at least two codewords) fails only
/// when the symbol list is empty or no size of it holds the data. The data
/// codewords of the Data Matrix decode to the bytes of the `Data` segments in
/// order with the field separator 29 for each `Fnc1` segment, an ECI span
/// for each `Eci` segment at the number of bytes before it, no FNC1 flag and
/// no Reader Programming flag; for `Data` segments alone, raw decoding gives
/// the bytes.
pub proof fn lemma_encode_segments_round_trip(
    r: Result<DataMatrix, DataEncodingError>,
    segs: Seq<DataMatrixSegment>,
    list: Seq<SymbolSize>,
)
    requires
        decodable_segments(segs),
        encoded_segments(r, segs, list, None, false),
    ensures
        r is Err ==> r == Err::<DataMatrix, DataEncodingError>(DataEncodingError::SymbolListEmpty)
            || r == Err::<DataMatrix, DataEncodingError>(DataEncodingError::TooMuchOrIllegalData),
        r matches Ok(m) ==> spec_decode_parts(m.spec_codewords().take(m.spec_num_data_codewords()), true)
            == Ok::<(Seq<u8>, Seq<(usize, u32)>, Option<Fnc1Position>, bool), DataDecodingError>(
            (segments_data(segs), segments_ecis(segs), None, false),
        ),
        only_data(segs) ==> (r matches Ok(m) ==> spec_decode_data(
            m.spec_codewords().take(m.spec_num_data_codewords()),
        ) == Ok::<Seq<u8>, DataDecodingError>(segments_data(segs))),
{
    data::lemma_segments_round_trip(segs, list);
    if only_data(segs) {
        data::lemma_data_segments_round_trip(segs, list);
    }
    if list.len() > 0 {
        let c = spec_segment_codewords(segs, None, false)->Ok_0;
        if let Ok((cw, size)) = spec_pad(c, list) {
            assert(spec_symbol_codewords(cw, size).take(cw.len() as int) =~= cw);
        }
    }
}

/// Where the module in column `x` and row `y` of a matrix of `w` columns and
/// `h` rows goes after `t` clockwise quarter turns (`t < 4`), as an index
/// into the turned matrix stored row by row.
pub open spec fn turned_index(x: int, y: int, w: int, h: int, t: int) -> int {
    if t == 0 {
        y * w + x
    } else if t == 1 {
        x * h + (h - 1 - y)
    } else if t == 2 {
        (h - 1 - y) * w + (w - 1 - x)
    } else {
        (w - 1 - x) * h + y
    }
}

/// The index in the untransformed matrix of `w` columns and `h` rows of the module
/// that stands at index `i` of the matrix turned `t` times (`t < 4`).
pub open spec fn turn_source(i: int, w: int, h: int, t: int) -> int {
    let ow = if t % 2 == 0 { w } else { h };
    let ox = i % ow;
    let oy = i / ow;
    if t == 0 {
        oy * w + ox
    } else if t == 1 {
        (h - 1 - ox) * w + oy
    } else if t == 2 {
        (h - 1 - oy) * w + (w - 1 - ox)
    } else {
        ox * w + (w - 1 - oy)
    }
}

/// The modules `p`, rows of `w` modules, turned clockwise `t` times and
/// reversed in reflectance when `inverted`.
pub open spec fn spec_transformed(p: Seq<bool>, w: int, t: int, inverted: bool) -> Seq<bool> {
    let h = (p.len() as int) / w;
    Seq::new(p.len(), |i: int| p[turn_source(i, w, h, t % 4)] != inverted)
}

/// Two positions in rows of `m` are equal only when their rows and columns are.
pub(crate) proof fn lemma_row_major_unique(a: int, b: int, c: int, d: int, m: int)
    requires
        0 <= b < m,
        0 <= d < m,
        0 <= a,
        0 <= c,
        a * m + b == c * m + d,
    ensures
        a == c,
        b == d,
{
    if a < c {
        assert(a * m + b < c * m + d) by (nonlinear_arith)
            requires
                a < c,
                0 <= b < m,
                0 <= d,
        ;
    } else if a > c {
        assert(a * m + b > c * m + d) by (nonlinear_arith)
            requires
                a > c,
                0 <= d < m,
                0 <= b,
        ;
    }
}

/// A turn moves the modules of a matrix to distinct places inside it.
proof fn lemma_turned_index(x: int, y: int, w: int, h: int, t: int)
    requires
        0 <= x < w,
        0 <= y < h,
        0 <= t < 4,
    ensures
        0 <= turned_index(x, y, w, h, t) < w * h,
        turn_source(turned_index(x, y, w, h, t), w, h, t) == y * w + x,
{
    let ow = if t % 2 == 0 { w } else { h };
    let (ox, oy) = if t == 0 {
        (x, y)
    } else if t == 1 {
        (h - 1 - y, x)
    } else if t == 2 {
        (w - 1 - x, h - 1 - y)
    } else {
        (y, w - 1 - x)
    };
    let oh = if t % 2 == 0 { h } else { w };
    assert(turned_index(x, y, w, h, t) == oy * ow + ox);
    assert(0 <= oy * ow + ox < ow * oh) by (nonlinear_arith)
        requires
            0 <= ox < ow,
            0 <= oy < oh,
    ;
    assert(ow * oh == w * h) by (nonlinear_arith)
        requires
            ow == w && oh == h || ow == h && oh == w,
    ;
    let i = oy * ow + ox;
    vstd::arithmetic::div_mod::lemma_fundamental_div_mod(i, ow);
    lemma_row_major_unique(oy, ox, i / ow, i % ow, ow);
}

/// The column in the untransformed matrix of the module at column `ox` and row
/// `oy` of the matrix turned `t` times.
pub open spec fn source_x(ox: int, oy: int, w: int, h: int, t: int) -> int {
    if t == 0 {
        ox
    } else if t == 1 {
        oy
    } else if t == 2 {
        w - 1 - ox
    } else {
        w - 1 - oy
    }
}

/// The row in the untransformed matrix of the module at column `ox` and row `oy`
/// of the matrix turned `t` times.
pub open spec fn source_y(ox: int, oy: int, w: int, h: int, t: int) -> int {
    if t == 0 {
        oy
    } else if t == 1 {
        h - 1 - ox
    } else if t == 2 {
        h - 1 - oy
    } else {
        ox
    }
}

/// The width of a matrix of `w` columns and `h` rows after `t` quarter turns.
pub open spec fn turned_width(w: int, h: int, t: int) -> int {
    if t % 2 == 0 { w } else { h }
}

/// An index into rows of `m` splits into its row and column.
pub(crate) proof fn lemma_split_index(i: int, m: int)
    requires
        0 <= i,
        m > 0,
    ensures
        i == (i / m) * m + i % m,
        0 <= i % m < m,
        0 <= i / m,
{
    vstd::arithmetic::div_mod::lemma_fundamental_div_mod(i, m);
    assert((i / m) * m == m * (i / m)) by (nonlinear_arith);
    assert(0 <= i / m) by (nonlinear_arith)
        requires
            i == m * (i / m) + i % m,
            i % m < m,
            0 <= i,
            m > 0,
    ;
}

/// The source of an index of a turned matrix, by its column and row.
proof fn lemma_turn_source(i: int, w: int, h: int, t: int)
    requires
        0 <= i < w * h,
        w > 0,
        h > 0,
        0 <= t < 4,
    ensures
        0 <= i % turned_width(w, h, t) < turned_width(w, h, t),
        0 <= i / turned_width(w, h, t) < (if t % 2 == 0 { h } else { w }),
        turn_source(i, w, h, t) == source_y(i % turned_width(w, h, t), i / turned_width(w, h, t), w, h, t) * w
            + source_x(i % turned_width(w, h, t), i / turned_width(w, h, t), w, h, t),
        0 <= source_x(i % turned_width(w, h, t), i / turned_width(w, h, t), w, h, t) < w,
        0 <= source_y(i % turned_width(w, h, t), i / turned_width(w, h, t), w, h, t) < h,
{
    let ow = turned_width(w, h, t);
    let oh = if t % 2 == 0 { h } else { w };
    lemma_split_index(i, ow);
    assert(ow * oh == w * h) by (nonlinear_arith)
        requires
            ow == w && oh == h || ow == h && oh == w,
    ;
    assert(i / ow < oh) by (nonlinear_arith)
        requires
            i == (i / ow) * ow + i % ow,
            0 <= i % ow,
            i < ow * oh,
            ow > 0,
    ;
}

/// Turning modules `t2` times after turning them `t1` times turns them
/// `t1 + t2` times, and reflectance reversal twice gives back the modules:
/// four quarter turns and two reversals restore a matrix.
#[verifier::spinoff_prover]
#[verifier::rlimit(50)]
pub proof fn lemma_transform_compose(p: Seq<bool>, w: int, t1: int, i1: bool, t2: int, i2: bool)
    requires
        w > 0,
        (p.len() as int) % w == 0,
        0 <= t1,
        0 <= t2,
    ensures
        spec_transformed(
            spec_transformed(p, w, t1, i1),
            turned_width(w, (p.len() as int) / w, t1 % 4),
            t2,
            i2,
        ) == spec_transformed(p, w, t1 + t2, i1 != i2),
{
    let n = p.len() as int;
    let h = n / w;
    lemma_split_index(n, w);
    if n == 0 {
        assert(spec_transformed(spec_transformed(p, w, t1, i1), turned_width(w, h, t1 % 4), t2, i2)
            =~= spec_transformed(p, w, t1 + t2, i1 != i2));
    } else {
        assert(h > 0) by (nonlinear_arith)
            requires
                n == h * w + 0,
                n > 0,
                w > 0,
        ;
        assert(n == w * h) by (nonlinear_arith)
            requires
                n == h * w,
        ;
        let a = t1 % 4;
        let b = t2 % 4;
        let c = (t1 + t2) % 4;
        assert(c == (a + b) % 4);
        let w1 = turned_width(w, h, a);
        let h1 = if a % 2 == 0 { h } else { w };
        assert(w1 * h1 == n) by (nonlinear_arith)
            requires
                w1 == w && h1 == h || w1 == h && h1 == w,
                n == w * h,
        ;
        lemma_split_index(n, w1);
        assert(n / w1 == h1) by {
            lemma_row_major_unique(n / w1, n % w1, h1, 0, w1);
        }
        let q = spec_transformed(p, w, t1, i1);
        assert forall|i: int| 0 <= i < n implies #[trigger] spec_transformed(q, w1, t2, i2)[i]
            == spec_transformed(p, w, t1 + t2, i1 != i2)[i] by {
            lemma_turn_source(i, w1, h1, b);
            let j = turn_source(i, w1, h1, b);
            let ox = i % turned_width(w1, h1, b);
            let oy = i / turned_width(w1, h1, b);
            let sx = source_x(ox, oy, w1, h1, b);
            let sy = source_y(ox, oy, w1, h1, b);
            assert(0 <= sy * w1 + sx < w1 * h1) by (nonlinear_arith)
                requires
                    0 <= sx < w1,
                    0 <= sy < h1,
            ;
            lemma_split_index(j, w1);
            lemma_row_major_unique(j / w1, j % w1, sy, sx, w1);
            lemma_turn_source(j, w, h, a);
            lemma_turn_source(i, w, h, c);
            assert(turned_width(w, h, c) == turned_width(w1, h1, b));
            let k = turn_source(j, w, h, a);
            assert(k == turn_source(i, w, h, c));
        }
        assert(spec_transformed(q, w1, t2, i2) =~= spec_transformed(p, w, t1 + t2, i1 != i2));
    }
}

/// Applies a clockwise quarter turn `quarter_turns` times and, optionally,
/// reflectance reversal to a matrix of modules stored row by row.
///
/// Returns the new modules and the new width; `None` when the width is zero
/// or does not divide the number of modules.
pub fn transform_modules(pixels: &[bool], width: usize, quarter_turns: usize, inverted: bool)
    -> (r: Option<(Vec<bool>, usize)>)
    ensures
        (width == 0 || (pixels@.len() as int) % (width as int) != 0) ==> r is None,
        width > 0 && (pixels@.len() as int) % (width as int) == 0 ==> (r matches Some((v, w))
            && v@ == spec_transformed(pixels@, width as int, quarter_turns as int, inverted)
            && w == (if quarter_turns % 4 == 0 || quarter_turns % 4 == 2 { width as int }
                else { (pixels@.len() as int) / (width as int) })),
{
    if width == 0 || pixels.len() % width != 0 {
        return None;
    }
    let height = pixels.len() / width;
    let turns = quarter_turns % 4;
    let output_width = if turns % 2 == 0 { width } else { height };
    let n = pixels.len();
    proof {
        vstd::arithmetic::div_mod::lemma_fundamental_div_mod(n as int, width as int);
        assert(n == width * height);
    }
    let ghost (w, h, t) = (width as int, height as int, turns as int);
    let mut output: Vec<bool> = vec![false; n];
    let mut y: usize = 0;
    while y < height
        invariant
            n == pixels@.len(),
            n == width * height,
            output@.len() == n,
            width > 0,
            turns < 4,
            w == width && h == height && t == turns,
            output_width == (if turns % 2 == 0 { width } else { height }),
            y <= height,
            forall|yy: int, xx: int| 0 <= yy < y && 0 <= xx < w ==> #[trigger] output@[turned_index(xx, yy, w, h, t)]
                == (pixels@[yy * w + xx] != inverted),
        decreases height - y,
    {
        let mut x: usize = 0;
        while x < width
            invariant
                n == pixels@.len(),
                n == width * height,
                output@.len() == n,
                width > 0,
                turns < 4,
                w == width && h == height && t == turns,
                output_width == (if turns % 2 == 0 { width } else { height }),
                y < height,
                x <= width,
                forall|yy: int, xx: int| (0 <= yy < y && 0 <= xx < w) || (yy == y && 0 <= xx < x)
                    ==> #[trigger] output@[turned_index(xx, yy, w, h, t)] == (pixels@[yy * w + xx] != inverted),
            decreases width - x,
        {
            proof {
                assert(y * width + x < width * height) by (nonlinear_arith)
                    requires y < height, x < width;
                assert(x * height + (height - 1 - y) < width * height) by (nonlinear_arith)
                    requires y < height, x < width;
                assert((height - 1 - y) * width + (width - 1 - x) < width * height) by (nonlinear_arith)
                    requires y < height, x < width;
                assert((width - 1 - x) * height + y < width * height) by (nonlinear_arith)
                    requires y < height, x < width;
            }
            let input_index = y * width + x;
            let (out_x, out_y) = if turns == 0 {
                (x, y)
            } else if turns == 1 {
                (height - 1 - y, x)
            } else if turns == 2 {
                (width - 1 - x, height - 1 - y)
            } else {
                (y, width - 1 - x)
            };
            let output_index = out_y * output_width + out_x;
            let ghost before = output@;
            proof {
                lemma_turned_index(x as int, y as int, w, h, t);
                assert(output_index == turned_index(x as int, y as int, w, h, t));
            }
            output.set(output_index, pixels[input_index] != inverted);
            proof {
                assert forall|yy: int, xx: int| (0 <= yy < y && 0 <= xx < w) || (yy == y && 0 <= xx < x + 1)
                    implies #[trigger] output@[turned_index(xx, yy, w, h, t)] == (pixels@[yy * w + xx] != inverted) by {
                    if yy != y || xx != x {
                        lemma_turned_index(xx, yy, w, h, t);
                        if turned_index(xx, yy, w, h, t) == output_index {
                            lemma_row_major_unique(yy, xx, y as int, x as int, w);
                        }
                        assert(before[turned_index(xx, yy, w, h, t)] == (pixels@[yy * w + xx] != inverted));
                    }
                }
            }
            x += 1;
        }
        y += 1;
    }
    proof {
        assert forall|i: int| 0 <= i < n implies output@[i] == (pixels@[turn_source(i, w, h, t)] != inverted) by {
            let ow = if t % 2 == 0 { w } else { h };
            let oh = if t % 2 == 0 { h } else { w };
            assert(ow * oh == w * h) by (nonlinear_arith)
                requires
                    ow == w && oh == h || ow == h && oh == w,
            ;
            vstd::arithmetic::div_mod::lemma_fundamental_div_mod(i, ow);
            let ox = i % ow;
            let oy = i / ow;
            assert(oy < oh) by (nonlinear_arith)
                requires
                    i == ow * oy + ox,
                    0 <= ox,
                    i < ow * oh,
                    ow > 0,
            ;
            assert(0 <= oy) by (nonlinear_arith)
                requires
                    i == ow * oy + ox,
                    ox < ow,
                    0 <= i,
                    ow > 0,
            ;
            assert(oy * ow == ow * oy) by (nonlinear_arith);
            let (xx, yy) = if t == 0 {
                (ox, oy)
            } else if t == 1 {
                (oy, h - 1 - ox)
            } else if t == 2 {
                (w - 1 - ox, h - 1 - oy)
            } else {
                (w - 1 - oy, ox)
            };
            assert(turned_index(xx, yy, w, h, t) == i);
            lemma_turned_index(xx, yy, w, h, t);
        }
        assert(output@ =~= spec_transformed(pixels@, width as int, quarter_turns as int, inverted));
    }
    Some((output, output_width))
}

/// A builder with more control over the encoding.
#[derive(Clone, Debug, PartialEq, Eq)]
pub struct DataMatrixBuilder {
    symbol_list: SymbolList,
    use_macros: bool,
    fnc1: Option<Fnc1Position>,
    reader_programming: bool,
}

impl DataMatrixBuilder {
    /// The symbol list of the builder.
    pub closed spec fn spec_symbol_list(&self) -> Seq<SymbolSize> {
        self.symbol_list@
    }

    /// The FNC1 position of the builder.
    pub closed spec fn spec_fnc1(&self) -> Option<Fnc1Position> {
        self.fnc1
    }

    /// Whether the builder marks Reader Programming messages.
    pub closed spec fn spec_reader_programming(&self) -> bool {
        self.reader_programming
    }

    /// Whether the builder uses macros.
    pub closed spec fn spec_use_macros(&self) -> bool {
        self.use_macros
    }

    /// A builder with the default symbol list, macros enabled, no FNC1 and
    /// no Reader Programming.
    pub fn new() -> (r: DataMatrixBuilder)
        ensures
            r.spec_symbol_list() == crate::symbol_size::spec_default_sizes(),
            r.spec_use_macros(),
            r.spec_fnc1() is None,
            !r.spec_reader_programming(),
    {
        DataMatrixBuilder {
            symbol_list: SymbolList::default(),
            use_macros: true,
            fnc1: None,
            reader_programming: false,
        }
    }

    /// Whether the Data Matrix starts with the `FNC1` codeword that marks a
    /// GS1 Data Matrix; a shorthand of [with_fnc1](Self::with_fnc1) for the
    /// first position.
    pub fn with_fnc1_start(self, fnc1_start: bool) -> (r: DataMatrixBuilder)
        ensures
            r.spec_fnc1() == (if fnc1_start { Some(Fnc1Position::First) } else { None }),
            r.spec_symbol_list() == self.spec_symbol_list(),
            r.spec_use_macros() == self.spec_use_macros(),
            r.spec_reader_programming() == self.spec_reader_programming(),
    {
        DataMatrixBuilder { fnc1: if fnc1_start { Some(Fnc1Position::First) } else { None }, ..self }
    }

    /// The position of the `FNC1` codeword (7.2.4.7): `First` marks the GS1
    /// format, `Second` an industry format. For the second position the data
    /// must start with one ASCII codeword (one character or a digit pair).
    pub fn with_fnc1(self, fnc1: Option<Fnc1Position>) -> (r: DataMatrixBuilder)
        ensures
            r.spec_fnc1() == fnc1,
            r.spec_symbol_list() == self.spec_symbol_list(),
            r.spec_use_macros() == self.spec_use_macros(),
            r.spec_reader_programming() == self.spec_reader_programming(),
    {
        DataMatrixBuilder { fnc1, ..self }
    }

    /// Marks the symbol as a Reader Programming message (7.2.4.10): codeword
    /// 234 goes first.
    pub fn with_reader_programming(self, enabled: bool) -> (r: DataMatrixBuilder)
        ensures
            r.spec_reader_programming() == enabled,
            r.spec_symbol_list() == self.spec_symbol_list(),
            r.spec_use_macros() == self.spec_use_macros(),
            r.spec_fnc1() == self.spec_fnc1(),
    {
        DataMatrixBuilder { reader_programming: enabled, ..self }
    }

    /// Whether macros may be used; enabled by default.
    pub fn with_macros(self, use_macros: bool) -> (r: DataMatrixBuilder)
        ensures
            r.spec_use_macros() == use_macros,
            r.spec_symbol_list() == self.spec_symbol_list(),
            r.spec_fnc1() == self.spec_fnc1(),
            r.spec_reader_programming() == self.spec_reader_programming(),
    {
        DataMatrixBuilder { use_macros, ..self }
    }

    /// The allowed symbol sizes; [SymbolList::default()] by default.
    pub fn with_symbol_list(self, symbol_list: SymbolList) -> (r: DataMatrixBuilder)
        ensures
            r.spec_symbol_list() == symbol_list@,
            r.spec_use_macros() == self.spec_use_macros(),
            r.spec_fnc1() == self.spec_fnc1(),
            r.spec_reader_programming() == self.spec_reader_programming(),
    {
        DataMatrixBuilder { symbol_list, ..self }
    }

    /// Encodes a message of data and control segments, after the FNC1 and
    /// Reader Programming flags of the builder; the data is written with the
    /// ASCII encodation.
    pub fn encode_segments(self, segments: &[DataMatrixSegment]) -> (r: Result<DataMatrix, DataEncodingError>)
        ensures
            encoded_segments(r, segments@, self.spec_symbol_list(), self.spec_fnc1(), self.spec_reader_programming()),
    {
        let (codewords, size) = match data::encode_data_segments_internal(
            segments,
            &self.symbol_list,
            self.fnc1,
            self.reader_programming,
        ) {
            Ok(v) => v,
            Err(e) => return Err(e),
        };
        proof {
            crate::symbol_size::lemma_first_fit_in(self.symbol_list@, spec_segment_codewords(segments@, self.fnc1, self.reader_programming)->Ok_0.len() as int);
        }
        Ok(finish_encoding(codewords, size))
    }
}

} // verus!

verus! {

/// A clockwise quarter turn of a `w` by `h` matrix moves the module at row
/// `r`, column `c` to row `c`, column `h - 1 - r` of the `h`-column result;
/// reflectance reversal turns each module from dark to light and back.
pub proof fn lemma_transform_moves(p: Seq<bool>, w: int, r: int, c: int, inverted: bool)
    requires
        w > 0,
        (p.len() as int) % w == 0,
        0 <= r < (p.len() as int) / w,
        0 <= c < w,
    ensures
        ({
            let h = (p.len() as int) / w;
            &&& spec_transformed(p, w, 1, inverted)[c * h + (h - 1 - r)] == (p[r * w + c] != inverted)
            &&& spec_transformed(p, w, 0, inverted)[r * w + c] == (p[r * w + c] != inverted)
        }),
{
    let h = (p.len() as int) / w;
    lemma_split_index(p.len() as int, w);
    assert(p.len() == h * w) by (nonlinear_arith)
        requires p.len() == (p.len() as int / w) * w + (p.len() as int) % w, (p.len() as int) % w == 0,
            h == p.len() as int / w;
    let i1 = c * h + (h - 1 - r);
    assert(0 <= i1 < p.len()) by (nonlinear_arith)
        requires 0 <= c < w, 0 <= r < h, i1 == c * h + (h - 1 - r), p.len() == h * w;
    assert(h > 0);
    lemma_split_index(i1, h);
    lemma_row_major_unique(i1 / h, i1 % h, c, h - 1 - r, h);
    assert(turn_source(i1, w, h, 1) == r * w + c);
    let i0 = r * w + c;
    assert(0 <= i0 < p.len()) by (nonlinear_arith)
        requires 0 <= c < w, 0 <= r < h, i0 == r * w + c, p.len() == h * w;
    lemma_split_index(i0, w);
    lemma_row_major_unique(i0 / w, i0 % w, r, c, w);
    assert(turn_source(i0, w, h, 0) == i0);
}

} // verus!
