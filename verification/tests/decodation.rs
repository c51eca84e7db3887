use datamatrix::data::{decode_data, decode_str, DataDecodingError};
use datamatrix::decodation::modes::{decode_ascii, read_eci, Reader};
use datamatrix::encodation::ascii::{LATCH_C40, LATCH_TEXT, LATCH_X12};
use datamatrix::encodation::{write_eci_codewords, EncodationType, MACRO05, MACRO06, UNLATCH};

#[test]
fn test_ascii() {
    let mut out = vec![];
    let mut eci = vec![];
    let mut fnc1 = None;
    let mut reader = Reader { data: b"BCD\x82\xeb\x26", pos: 0 };
    assert_eq!(
        decode_ascii(&mut reader, &mut out, &mut eci, &mut fnc1),
        Ok(EncodationType::Ascii)
    );
    assert_eq!(reader.pos, 6);
    assert_eq!(&out, b"ABC00\xa5");
    assert_eq!(fnc1, None);
}

#[test]
fn test_c40() {
    assert_eq!(decode_data(&[230, 91, 11]), Ok(vec![b'A', b'I', b'M']));
}

#[test]
fn test_edifact() {
    assert_eq!(decode_data(&[240, 16, 21, 1]), Ok(vec![b'D', b'A', b'T', b'A']));
}

#[test]
fn test_base256() {
    assert_eq!(
        decode_data(&[231, 44, 108, 59, 226, 126, 1, 104]),
        Ok(vec![0xab, 0xe4, 0xf6, 0xfc, 0xe9, 0xbb])
    );
}

fn enc_dec(eci: u32) -> Result<u32, &'static str> {
    let mut codewords = Vec::new();
    write_eci_codewords(&mut codewords, eci).map_err(|_| "ECI codeword yazılamadı")?;
    let encoded_eci = codewords.get(1..).ok_or("ECI latch sonrasında codeword bulunamadı")?;
    read_eci(&mut Reader { data: encoded_eci, pos: 0 }).map_err(|_| "ECI codeword okunamadı")
}

#[test]
fn test_read_eci() -> Result<(), &'static str> {
    for eci in (0..=999999).step_by(31) {
        assert_eq!(enc_dec(eci)?, eci);
    }
    assert_eq!(enc_dec(0)?, 0);
    assert_eq!(enc_dec(126)?, 126);
    assert_eq!(enc_dec(127)?, 127);
    assert_eq!(enc_dec(16382)?, 16382);
    assert_eq!(enc_dec(16383)?, 16383);
    assert_eq!(enc_dec(999999)?, 999999);

    for invalid in [0, 255] {
        assert_eq!(
            read_eci(&mut Reader { data: &[192, 1, invalid], pos: 0 }),
            Err(DataDecodingError::UnexpectedCharacter("ECI sonrasındaki üçüncü codeword", invalid))
        );
    }
    Ok(())
}

#[test]
fn test_strict_eot_c40_unlatch() {
    assert_eq!(
        decode_data(&[LATCH_TEXT, UNLATCH, UNLATCH, 50]),
        Err(DataDecodingError::UnexpectedCharacter("ASCII içinde geçersiz", UNLATCH)),
    );
    assert_eq!(
        decode_data(&[LATCH_X12, UNLATCH, UNLATCH, 50]),
        Err(DataDecodingError::UnexpectedCharacter("ASCII içinde geçersiz", UNLATCH)),
    );
}

#[test]
fn invalid_c40_like_tuples_return_errors_without_panicking() {
    for latch in [LATCH_C40, LATCH_TEXT, LATCH_X12] {
        assert!(decode_data(&[latch, 0, 0]).is_err());
        assert!(decode_data(&[latch, 250, 255]).is_err());
    }
}

#[test]
fn test_decode_macro_string() {
    assert_eq!(decode_str(&[MACRO05, b'A' + 1]), Ok("[)>\x1e05\x1dA\x1e\x04".into()));
    assert_eq!(decode_str(&[MACRO06, b'A' + 1]), Ok("[)>\x1e06\x1dA\x1e\x04".into()));
}

#[test]
fn eci_above_the_limit_is_refused() {
    let mut codewords = vec![7];
    assert_eq!(
        write_eci_codewords(&mut codewords, 1_000_000),
        Err(datamatrix::encodation::DataEncodingError::InvalidEci(1_000_000))
    );
    assert_eq!(codewords, vec![7]);
}

#[test]
fn eci_codewords_have_the_documented_lengths() {
    for (eci, expected) in [(0u32, vec![241, 1]), (126, vec![241, 127]), (127, vec![241, 128, 1]),
        (16382, vec![241, 191, 254]), (16383, vec![241, 192, 1, 1]), (999999, vec![241, 207, 63, 129])]
    {
        let mut codewords = Vec::new();
        assert_eq!(write_eci_codewords(&mut codewords, eci), Ok(()));
        assert_eq!(codewords, expected, "eci {eci}");
    }
}

#[test]
fn c40_shift1_pad_before_unlatch_decodes() {
    // (A, B, Shift 1) = 89, 217, then UNLATCH and '!' in ASCII.
    assert_eq!(decode_data(&[230, 89, 217, 254, 34]), Ok(b"AB!".to_vec()));
}

#[test]
fn c40_shift1_pad_before_final_ascii_decodes() {
    // AIM AIM (A, B, Shift 1), then '!' in ASCII after the implicit unlatch.
    assert_eq!(
        decode_data(&[230, 91, 11, 91, 11, 89, 217, 34]),
        Ok(b"AIMAIMAB!".to_vec())
    );
}

#[test]
fn c40_open_shift2_is_rejected() {
    // (A, B, Shift 2) = 89, 218 leaves a Shift 2 open.
    assert!(decode_data(&[230, 89, 218, 254, 34]).is_err());
}

#[test]
fn structured_append_is_refused() {
    assert_eq!(
        decode_data(&[233, 66, 67]),
        Err(DataDecodingError::NotImplemented("Structured Append"))
    );
}
