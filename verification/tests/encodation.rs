use arrayvec::ArrayVec;
use datamatrix::decodation::modes::{decode_c40_tuple, derandomize_255_state};
use datamatrix::encodation::base256::{randomize_255_state, write_length};
use datamatrix::encodation::c40::{in_base_set, to_vals, vals, val_size, write_three_values};
use datamatrix::encodation::edifact::{is_encodable, write4};
use datamatrix::encodation::DataEncodingError;

#[test]
fn test_enc_basic_set() {
    let vals = vals(b" 0123456789ABCDEFGHIJKLMNOPQRSTUVWXYZ");
    let out: Vec<u8> = (3..=39).collect();
    assert_eq!(vals, out);
}

#[test]
fn test_enc_shift1_set() {
    let input: Vec<u8> = (0..=31).collect();
    let vals = vals(&input);
    assert_eq!(
        vals,
        vec![
            0, 0, 0, 1, 0, 2, 0, 3, 0, 4, 0, 5, 0, 6, 0, 7, 0, 8, 0, 9, 0, 10, 0, 11, 0, 12, 0, 13,
            0, 14, 0, 15, 0, 16, 0, 17, 0, 18, 0, 19, 0, 20, 0, 21, 0, 22, 0, 23, 0, 24, 0, 25, 0,
            26, 0, 27, 0, 28, 0, 29, 0, 30, 0, 31
        ]
    );
}

#[test]
fn test_enc_shift2_set() {
    let vals = vals(b"!\"#$%&'()*+,-./:;<=>?@[\\]^_");
    assert_eq!(
        vals,
        vec![
            1, 0, 1, 1, 1, 2, 1, 3, 1, 4, 1, 5, 1, 6, 1, 7, 1, 8, 1, 9, 1, 10, 1, 11, 1, 12, 1, 13,
            1, 14, 1, 15, 1, 16, 1, 17, 1, 18, 1, 19, 1, 20, 1, 21, 1, 22, 1, 23, 1, 24, 1, 25, 1,
            26
        ]
    );
}

#[test]
fn test_enc_shift3_set() {
    let vals = vals(b"`abcdefghijklmnopqrstuvwxyz{|}~\x7f");
    let test = vec![
        2, 0, 2, 1, 2, 2, 2, 3, 2, 4, 2, 5, 2, 6, 2, 7, 2, 8, 2, 9, 2, 10, 2, 11, 2, 12, 2, 13, 2,
        14, 2, 15, 2, 16, 2, 17, 2, 18, 2, 19, 2, 20, 2, 21, 2, 22, 2, 23, 2, 24, 2, 25, 2, 26, 2,
        27, 2, 28, 2, 29, 2, 30, 2, 31,
    ];
    assert_eq!(vals, test);
}

#[test]
fn test_shift_upper() {
    let vals = vals(b"\x80\xFF\xa0");
    assert_eq!(vals, vec![1, 30, 0, 0, 1, 30, 2, 31, 1, 30, 3]);
}

#[test]
fn test_write4_four() -> Result<(), DataEncodingError> {
    let mut codewords = vec![];
    write4(&mut codewords, &[0b10_01_00, 0b11_01_10, 0b011010, 1].into())?;
    assert_eq!(
        codewords,
        vec![0b10_01_00_11, 0b01_10_01_10, 0b10_00_00_01]
    );
    Ok(())
}

#[test]
fn test_write4_three() -> Result<(), DataEncodingError> {
    let mut codewords = vec![];
    let mut s = ArrayVec::<u8, 4>::new();
    s.try_extend_from_slice(&[0b10_01_00, 0b11_01_10, 0b011010])
        .map_err(|_| DataEncodingError::InternalError("EDIFACT test buffer kapasitesi aşıldı"))?;
    write4(&mut codewords, &s)?;
    assert_eq!(
        codewords,
        vec![0b10_01_00_11, 0b01_10_01_10, 0b10_00_00_00]
    );
    Ok(())
}

#[test]
fn test_write4_two() -> Result<(), DataEncodingError> {
    let mut codewords = vec![];
    let mut s = ArrayVec::<u8, 4>::new();
    s.try_extend_from_slice(&[0b10_01_00, 0b11_01_10])
        .map_err(|_| DataEncodingError::InternalError("EDIFACT test buffer kapasitesi aşıldı"))?;
    write4(&mut codewords, &s)?;
    assert_eq!(codewords, vec![0b10_01_00_11, 0b01_10_00_00]);
    Ok(())
}

#[test]
fn test_write4_one() -> Result<(), DataEncodingError> {
    let mut codewords = vec![];
    let mut s = ArrayVec::<u8, 4>::new();
    s.try_extend_from_slice(&[0b10_01_00])
        .map_err(|_| DataEncodingError::InternalError("EDIFACT test buffer kapasitesi aşıldı"))?;
    write4(&mut codewords, &s)?;
    assert_eq!(codewords, vec![0b10_01_00_00]);
    Ok(())
}

#[test]
fn write4_refuses_an_empty_group() {
    let mut codewords = vec![7u8];
    let s = ArrayVec::<u8, 4>::new();
    let r = write4(&mut codewords, &s);
    assert!(matches!(r, Err(DataEncodingError::InternalError(_))));
    assert_eq!(codewords, vec![7u8]);
}

#[test]
fn edifact_encodable_range() {
    assert!(!is_encodable(31));
    assert!(is_encodable(32));
    assert!(is_encodable(94));
    assert!(!is_encodable(95));
    assert!(!is_encodable(b'a'));
}

#[test]
fn edifact_group_of_characters_reads_back() {
    // "ABC." in EDIFACT: each character is its low six bits.
    let mut codewords = vec![];
    write4(&mut codewords, &[b'A', b'B', b'C', b'.'].into()).unwrap();
    let n = ((codewords[0] as u32) << 16) | ((codewords[1] as u32) << 8) | codewords[2] as u32;
    let values = [(n >> 18) & 63, (n >> 12) & 63, (n >> 6) & 63, n & 63];
    assert_eq!(values, [b'A' as u32 & 63, b'B' as u32 & 63, b'C' as u32 & 63, b'.' as u32 & 63]);
}

#[test]
fn c40_set_sizes() {
    assert!(in_base_set(b' '));
    assert!(in_base_set(b'7'));
    assert!(in_base_set(b'Q'));
    assert!(!in_base_set(b'q'));
    assert_eq!(val_size(b'Q'), 1);
    assert_eq!(val_size(b'q'), 2);
    assert_eq!(val_size(0x80 + b'Q'), 3);
    assert_eq!(val_size(0xFF), 4);
}

#[test]
fn c40_three_values_pack_and_unpack() {
    // 7.2.5.2 example: "AIM" is 14, 22, 26 -> 1600*14 + 40*22 + 26 + 1 = 23307.
    let mut codewords = vec![];
    write_three_values(&mut codewords, 14, 22, 26);
    assert_eq!(codewords, vec![91, 11]);
    assert_eq!(decode_c40_tuple(91, 11).unwrap(), (14, 22, 26));
}

#[test]
fn base256_randomization_is_undone() {
    assert_eq!(randomize_255_state(0xab, 2), 0xab_u8.wrapping_add(((149 * 2) % 255 + 1) as u8));
    for pos in [1usize, 2, 100, 254, 255, 256, 1000] {
        for ch in 0..=255u8 {
            assert_eq!(derandomize_255_state(randomize_255_state(ch, pos), pos), ch);
        }
    }
}

#[test]
fn base256_length_field_short() {
    // The field starts after the Base256 latch at index 0; positions are 1-based.
    let mut codewords = vec![231, 0, 0xab, 0xe4];
    write_length(&mut codewords, 1, false, Some(3)).unwrap();
    let expected: Vec<u8> = [2u8, 0xab, 0xe4]
        .iter()
        .enumerate()
        .map(|(i, &b)| randomize_255_state(b, i + 2))
        .collect();
    assert_eq!(&codewords[1..], &expected[..]);
    assert_eq!(codewords[0], 231);
}

#[test]
fn base256_length_field_long() {
    let mut codewords = vec![231, 0];
    codewords.extend(std::iter::repeat(7u8).take(300));
    write_length(&mut codewords, 1, true, Some(0)).unwrap();
    assert_eq!(codewords.len(), 303);
    assert_eq!(derandomize_255_state(codewords[1], 2) as usize, 300 / 250 + 249);
    assert_eq!(derandomize_255_state(codewords[2], 3), (300 % 250) as u8);
    for i in 3..303 {
        assert_eq!(derandomize_255_state(codewords[i], i + 1), 7);
    }
}

#[test]
fn base256_field_to_the_end_keeps_the_placeholder() {
    let mut codewords = vec![231, 0, 1, 2];
    write_length(&mut codewords, 1, false, Some(0)).unwrap();
    assert_eq!(derandomize_255_state(codewords[1], 2), 0);
    assert_eq!(derandomize_255_state(codewords[2], 3), 1);
    assert_eq!(derandomize_255_state(codewords[3], 4), 2);
}

#[test]
fn base256_without_a_fitting_symbol() {
    let mut codewords = vec![231, 0, 1];
    assert_eq!(
        write_length(&mut codewords, 1, false, None),
        Err(DataEncodingError::TooMuchOrIllegalData)
    );
    assert_eq!(codewords, vec![231, 0, 1]);
}

#[test]
fn c40_to_vals_appends_to_a_buffer() {
    let mut buf = ArrayVec::<u8, 6>::new();
    assert_eq!(to_vals(&mut buf, b'A'), 1);
    assert_eq!(to_vals(&mut buf, 0xE1), 4);
    assert_eq!(buf.as_slice(), &[14, 1, 30, 2, 1]);
}
