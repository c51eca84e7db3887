use datamatrix::data::{decode_data, decode_message};
use datamatrix::encodation::READER_PROGRAMMING;
use datamatrix::placement::MatrixMap;
use datamatrix::{
    transform_modules, DataEncodingError, DataMatrix, DataMatrixBuilder, DataMatrixSegment, DecodingError,
    Fnc1Position, SymbolList, SymbolSize,
};

fn random_bytes() -> impl FnMut() -> u8 {
    let mut seed = 0;
    move || {
        let modulus = 2u64.pow(31);
        let a = 1103515245u64;
        let c = 12345u64;
        seed = (a * seed + c) % modulus;
        (seed % 256) as u8
    }
}

fn random_data() -> impl FnMut(usize) -> Vec<u8> {
    let mut rnd = random_bytes();
    move |len| {
        let mut v = Vec::with_capacity(len);
        for _ in 0..len {
            v.push(rnd());
        }
        v
    }
}

#[test]
fn segmented_controls_round_trip_with_multiple_eci_and_later_fnc1() -> Result<(), Box<dyn std::error::Error>> {
    let code = DataMatrix::encode_segments(
        &[
            DataMatrixSegment::Data(&[182]),
            DataMatrixSegment::Eci(7),
            DataMatrixSegment::Data(&[182]),
            DataMatrixSegment::Eci(3),
            DataMatrixSegment::Data(b"A"),
            DataMatrixSegment::Fnc1,
            DataMatrixSegment::Data(b"B"),
        ],
        SymbolList::default(),
    )
    .map_err(|e| format!("{e:?}"))?;
    assert_eq!(code.data_codewords().get(..11), Some([235, 55, 241, 8, 235, 55, 241, 4, 66, 232, 67].as_slice()));

    let message = decode_message(code.data_codewords()).map_err(|e| format!("{e:?}"))?;
    assert_eq!(message.data(), &[182, 182, b'A', 29, b'B']);
    assert_eq!(message.eci_spans(), &[(1, 7), (2, 3)]);
    assert_eq!(message.fnc1(), None);
    assert_eq!(message.symbology_identifier(), "]d4");
    Ok(())
}

#[test]
fn test_tile_placement_forth_and_back() -> Result<(), Box<dyn std::error::Error>> {
    let mut rnd_data = random_data();
    for size in SymbolList::all().sizes().iter().copied() {
        let data = rnd_data(size.num_codewords());
        let map = MatrixMap::new_with_codewords(&data, size).map_err(|e| format!("{e:?}"))?;
        assert_eq!(map.codewords(), data);
        let bitmap = map.bitmap();
        let (matrix_map, _size) =
            MatrixMap::try_from_bits(bitmap.bits(), bitmap.width()).map_err(|e| format!("{e:?}"))?;
        assert_eq!(matrix_map.codewords(), data);
    }
    Ok(())
}

#[test]
fn reader_programming_segments_are_encoded_and_reported() {
    let code = DataMatrixBuilder::new()
        .with_reader_programming(true)
        .encode_segments(&[DataMatrixSegment::Data(b"ABC")])
        .expect("fits");
    assert_eq!(code.data_codewords().first(), Some(&READER_PROGRAMMING));
    let message = decode_message(code.data_codewords()).expect("decodes");
    assert!(message.is_reader_programming());
    assert_eq!(message.data(), b"ABC");
    assert!(message.transmission().is_empty());

    let code = DataMatrixBuilder::new()
        .with_reader_programming(true)
        .with_fnc1(Some(Fnc1Position::Second))
        .encode_segments(&[DataMatrixSegment::Data(b"A")])
        .expect("fits");
    let message = decode_message(code.data_codewords()).expect("decodes");
    assert!(message.is_reader_programming());
    assert_eq!(message.fnc1(), Some(Fnc1Position::Second));

    let conflict = DataMatrixBuilder::new()
        .with_reader_programming(true)
        .with_fnc1(Some(Fnc1Position::First))
        .encode_segments(&[DataMatrixSegment::Data(b"A")]);
    assert!(matches!(conflict, Err(DataEncodingError::InvalidControlPosition(_))));

    let misplaced = DataMatrix::encode_segments(
        &[DataMatrixSegment::Data(b"A"), DataMatrixSegment::ReaderProgramming],
        SymbolList::default(),
    );
    assert!(matches!(misplaced, Err(DataEncodingError::InvalidControlPosition(_))));
}

#[test]
fn decode_accepts_all_quarter_turns_of_a_segment_encoded_symbol() {
    let input = b"rotate";
    let code = DataMatrix::encode_segments(&[DataMatrixSegment::Data(input)], SymbolList::from_size(SymbolSize::Rect8x32))
        .expect("fits");
    let bitmap = code.bitmap();
    let canonical: Vec<bool> = bitmap.bits().into();
    for inverted in [false, true] {
        for quarter_turns in 0..4 {
            let (transformed, width) =
                transform_modules(&canonical, bitmap.width(), quarter_turns, inverted).expect("valid matrix");
            assert_eq!(
                DataMatrix::decode(&transformed, width),
                Ok(input.to_vec()),
                "quarter_turns={quarter_turns}, inverted={inverted}",
            );
        }
    }
}

#[test]
fn transform_modules_turns_clockwise() {
    // 2 x 3 matrix (width 3):   a b c / d e f   turned clockwise:   d a / e b / f c
    let pixels = [true, false, false, false, true, true];
    let (turned, width) = transform_modules(&pixels, 3, 1, false).expect("valid");
    assert_eq!(width, 2);
    assert_eq!(turned, vec![false, true, true, false, true, false]);
    let (inverted, width) = transform_modules(&pixels, 3, 4, true).expect("valid");
    assert_eq!(width, 3);
    assert_eq!(inverted, vec![false, true, true, true, false, false]);
    assert_eq!(transform_modules(&pixels, 0, 0, false), None);
    assert_eq!(transform_modules(&pixels, 4, 0, false), None);
}

#[test]
fn annex_i_example_with_ascii_segments() {
    // ISO/IEC 16022:2024 Annex I: "123456" in a 10x10 symbol with the
    // codewords 142 164 186 | 114 25 5 88 102.
    let code = DataMatrix::encode_segments(&[DataMatrixSegment::Data(b"123456")], SymbolList::default()).expect("fits");
    assert_eq!(code.size(), SymbolSize::Square10);
    assert_eq!(code.codewords(), &[142, 164, 186, 114, 25, 5, 88, 102]);
    assert_eq!(code.data_codewords(), &[142, 164, 186]);

    let bitmap = code.bitmap();
    assert_eq!(bitmap.width(), 10);
    let bits: Vec<bool> = bitmap.bits().into();
    assert_eq!(bits.len(), 100);
    const FIGURE_I1: [&str; 8] =
        ["10010110", "10000010", "10001110", "10000100", "00000111", "11011000", "11101100", "00111010"];
    for (row, modules) in FIGURE_I1.iter().enumerate() {
        for (col, module) in modules.bytes().enumerate() {
            assert_eq!(bits.get((row + 1) * 10 + col + 1).copied(), Some(module == b'1'), "({row}, {col})");
        }
    }
    for i in 0..10 {
        assert_eq!(bits.get(i * 10).copied(), Some(true));
        assert_eq!(bits.get(90 + i).copied(), Some(true));
        assert_eq!(bits.get(i).copied(), Some(i % 2 == 0));
        assert_eq!(bits.get(i * 10 + 9).copied(), Some(i % 2 == 1));
    }
    assert_eq!(DataMatrix::decode(&bits, 10), Ok(b"123456".to_vec()));
}

#[test]
fn fnc1_second_position_with_segments() {
    let data = b"A1234567\x1D99";
    let code = DataMatrixBuilder::new()
        .with_fnc1(Some(Fnc1Position::Second))
        .encode_segments(&[DataMatrixSegment::Data(data)])
        .expect("fits");
    assert_eq!(code.data_codewords().get(..2), Some(&[66, 232][..]));
    let message = decode_message(code.data_codewords()).expect("decodes");
    assert_eq!(message.data(), data);
    assert_eq!(message.fnc1(), Some(Fnc1Position::Second));
    assert_eq!(message.symbology_identifier(), "]d3");

    let code = DataMatrixBuilder::new()
        .with_fnc1(Some(Fnc1Position::Second))
        .encode_segments(&[DataMatrixSegment::Data(b"1712345")])
        .expect("fits");
    assert_eq!(code.data_codewords().get(..2), Some(&[147, 232][..]));

    let second = || DataMatrixBuilder::new().with_fnc1(Some(Fnc1Position::Second));
    assert_eq!(
        second().encode_segments(&[DataMatrixSegment::Data(b"\xFFabc")]),
        Err(DataEncodingError::InvalidControlPosition(
            "ikinci konumdaki FNC1 öncesindeki veri tek ASCII codeword olmalıdır"
        ))
    );
    assert_eq!(
        second().encode_segments(&[DataMatrixSegment::Data(b"")]),
        Err(DataEncodingError::InvalidControlPosition("ikinci konumdaki FNC1 için bir ASCII data codeword gerekir"))
    );
}

#[test]
fn gs1_start_is_reported_from_the_pixels() {
    let data = b"01034531200000111719112510ABCD1234\x1D2110";
    let code = DataMatrixBuilder::new()
        .with_fnc1_start(true)
        .encode_segments(&[DataMatrixSegment::Data(data)])
        .expect("fits");
    assert_eq!(code.codewords().first(), Some(&232));
    assert_eq!(decode_data(code.data_codewords()), Ok(data.to_vec()));
    let bitmap = code.bitmap();
    let pixels: Vec<bool> = bitmap.bits().into();
    let message = DataMatrix::decode_message(&pixels, bitmap.width()).expect("decodes");
    assert_eq!(message.data(), data);
    assert_eq!(message.fnc1(), Some(Fnc1Position::First));
    assert_eq!(message.symbology_identifier(), "]d2");
}

#[test]
fn too_much_data_and_empty_list() {
    let mut rnd_data = random_data();
    let data = rnd_data(5000);
    let result = DataMatrix::encode_segments(&[DataMatrixSegment::Data(&data)], SymbolList::default());
    assert_eq!(result, Err(DataEncodingError::TooMuchOrIllegalData));
}

#[test]
fn decode_reports_pixel_errors() {
    assert_eq!(
        DataMatrix::decode(&[true; 10], 0),
        Err(DecodingError::PixelConversion(datamatrix::placement::BitmapConversionError::ZeroWidth))
    );
    assert_eq!(
        DataMatrix::decode(&[true; 10], 3),
        Err(DecodingError::PixelConversion(datamatrix::placement::BitmapConversionError::DataSize))
    );
}

#[test]
fn data_codewords_are_a_prefix_of_the_codewords() {
    let code = DataMatrix::encode_segments(&[DataMatrixSegment::Data(b"Hello")], SymbolList::default()).expect("fits");
    let n = code.data_codewords().len();
    assert_eq!(n, code.size().num_data_codewords());
    assert_eq!(&code.codewords()[..n], code.data_codewords());
    assert_eq!(code.codewords().len(), code.size().num_codewords());
}

#[test]
fn quarter_turns_and_reversals_compose() {
    // 2 x 3 matrix (width 3, height 2).
    let pixels = [true, false, false, false, true, true];
    let (once, w1) = transform_modules(&pixels, 3, 1, true).expect("valid");
    let (back, w2) = transform_modules(&once, w1, 3, true).expect("valid");
    assert_eq!(w2, 3);
    assert_eq!(back, pixels.to_vec());
    let (twice, w) = transform_modules(&once, w1, 1, false).expect("valid");
    let (direct, wd) = transform_modules(&pixels, 3, 2, true).expect("valid");
    assert_eq!((twice, w), (direct, wd));
}
