use datamatrix::data::{decode_data, decode_str, encode_data_segments, latin1_to_utf8, utf8_to_latin1};
use datamatrix::{DataEncodingError, DataMatrixSegment, SymbolList, SymbolSize};

#[test]
fn segment_boundaries_keep_digit_pair_compaction() -> Result<(), DataEncodingError> {
    // "1" + "" + "23" pairs up as one ASCII stream: the pair (1, 2) and a single '3'.
    let (codewords, _) = encode_data_segments(
        &[
            DataMatrixSegment::Data(b"1"),
            DataMatrixSegment::Data(b""),
            DataMatrixSegment::Data(b"23"),
        ],
        &SymbolList::default(),
    )?;
    assert_eq!(codewords.get(..2), Some([142, b'3' + 1].as_slice()));
    assert_eq!(decode_data(&codewords), Ok(b"123".to_vec()));

    // Control codewords are field boundaries; no digit pair is formed across FNC1.
    let (codewords, _) = encode_data_segments(
        &[
            DataMatrixSegment::Data(b"A1"),
            DataMatrixSegment::Fnc1,
            DataMatrixSegment::Data(b"2"),
        ],
        &SymbolList::default(),
    )?;
    assert_eq!(codewords.get(..4), Some([b'A' + 1, b'1' + 1, 232, b'2' + 1].as_slice()));
    assert_eq!(decode_data(&codewords), Ok([b'A', b'1', 29, b'2'].to_vec()));
    Ok(())
}

#[test]
fn latin1_helpers_cover_all_byte_values() -> Result<(), &'static str> {
    let bytes: Vec<u8> = (0..=u8::MAX).collect();
    let text = latin1_to_utf8(&bytes).ok_or("ISO/IEC 8859-1 conversion failed")?;
    assert_eq!(utf8_to_latin1(&text), Some(bytes));
    assert_eq!(decode_str(&[11]), Ok("\n".into()));
    Ok(())
}

#[test]
fn utf8_to_latin1_refuses_characters_above_latin1() {
    assert_eq!(utf8_to_latin1("aé"), Some(vec![b'a', 0xe9]));
    assert_eq!(utf8_to_latin1("a€"), None);
    assert_eq!(utf8_to_latin1(""), Some(vec![]));
}

#[test]
fn segments_are_padded_to_the_first_symbol_that_fits() -> Result<(), DataEncodingError> {
    // "AB" takes two codewords; a 10x10 symbol holds three, the third is the pad 129.
    let (codewords, size) =
        encode_data_segments(&[DataMatrixSegment::Data(b"AB")], &SymbolList::default())?;
    assert_eq!(size, SymbolSize::Square10);
    assert_eq!(codewords, vec![b'A' + 1, b'B' + 1, 129]);

    // The second pad codeword is randomized by its position (253-state algorithm).
    let (codewords, size) =
        encode_data_segments(&[DataMatrixSegment::Data(b"A")], &SymbolList::default())?;
    assert_eq!(size, SymbolSize::Square10);
    // Position 3: 149 * 3 % 253 + 1 = 195, 129 + 195 = 324 > 254, so 324 - 254 = 70.
    assert_eq!(codewords, vec![b'A' + 1, 129, 70]);
    Ok(())
}

#[test]
fn upper_shift_and_eci_segments_are_written_as_documented() -> Result<(), DataEncodingError> {
    let (codewords, _) = encode_data_segments(
        &[DataMatrixSegment::Eci(3), DataMatrixSegment::Data(&[0xe9])],
        &SymbolList::default(),
    )?;
    assert_eq!(codewords.get(..4), Some([241, 4, 235, 0xe9 - 127].as_slice()));
    Ok(())
}

#[test]
fn segment_errors() {
    let misplaced = encode_data_segments(
        &[DataMatrixSegment::Data(b"A"), DataMatrixSegment::ReaderProgramming],
        &SymbolList::default(),
    );
    assert!(matches!(misplaced, Err(DataEncodingError::InvalidControlPosition(_))));

    let invalid_eci = encode_data_segments(&[DataMatrixSegment::Eci(1_000_000)], &SymbolList::default());
    assert_eq!(invalid_eci, Err(DataEncodingError::InvalidEci(1_000_000)));

    let too_much = encode_data_segments(
        &[DataMatrixSegment::Data(b"ABCDEF")],
        &SymbolList::from_size(SymbolSize::Square10),
    );
    assert_eq!(too_much, Err(DataEncodingError::TooMuchOrIllegalData));
}

#[test]
fn data_and_eci_segments_round_trip() -> Result<(), DataEncodingError> {
    let (codewords, _) = encode_data_segments(
        &[
            DataMatrixSegment::Data(b"ab"),
            DataMatrixSegment::Eci(26),
            DataMatrixSegment::Data(b"1"),
            DataMatrixSegment::Eci(70000),
            DataMatrixSegment::Data(&[0xfc]),
        ],
        &SymbolList::default(),
    )?;
    let message = datamatrix::data::decode_message(&codewords).expect("decodes");
    assert_eq!(message.data(), &[b'a', b'b', b'1', 0xfc]);
    assert_eq!(message.eci_spans(), &[(2, 26), (3, 70000)]);
    assert_eq!(decode_data(&codewords), Err(datamatrix::data::DataDecodingError::ECICode));
    Ok(())
}
