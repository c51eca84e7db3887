use datamatrix::errorcode::decoding::syndrome_based::find_error_values_bp;
use datamatrix::errorcode::decoding::{chien_search, primitive_element_evaluation, solve};
use datamatrix::errorcode::galois::{ANTI_LOG, LOG};
use datamatrix::errorcode::{decode_error, encode_error, ErrorDecodingError, ErrorEncodingError, GF};
use datamatrix::{SymbolList, SymbolSize};
use std::collections::BTreeSet;

#[test]
fn sanity_check_tables() {
    let anti_log: BTreeSet<u8> = ANTI_LOG.iter().cloned().collect();
    assert_eq!(anti_log.len(), ANTI_LOG.len());

    let log: BTreeSet<u8> = LOG.get(1..).unwrap_or_default().iter().cloned().collect();
    assert_eq!(log.len(), LOG.len() - 1);

    for (i, anti_log) in ANTI_LOG.iter().copied().enumerate() {
        assert_eq!(Some(i), LOG.get(usize::from(anti_log)).map(|value| usize::from(*value)));
    }
    for (i, log) in LOG.iter().copied().enumerate().skip(1) {
        assert_eq!(Some(i), ANTI_LOG.get(usize::from(log)).map(|value| usize::from(*value)));
    }
}

#[test]
fn gf256_mul() {
    assert_eq!(GF(123).mul(GF(1)), GF(123));
    assert_eq!(GF(234).mul(GF(0)), GF(0));
    assert_eq!(GF(0).mul(GF(23)), GF(0));
    assert_eq!(GF(2).mul(GF(4)).mul(GF(8)).mul(GF(16)).mul(GF(32)), GF(228));
}

#[test]
fn gf256_div_mul() {
    for a in 0..=255 {
        for b in 1..=255 {
            let a_div_b = GF(a).div(GF(b));
            assert_eq!(a_div_b.mul(GF(b)), GF(a));
        }
    }
}

#[test]
fn test_gf256_power_iterator() {
    let powers: Vec<GF> = GF::primitive_powers(500);
    let mut power_direct = Vec::with_capacity(500);
    let mut a = GF(1);
    for i in 0..500 {
        power_direct.push(a);
        assert_eq!(GF::primitive_power((i % 255) as u8), a);
        a = a.mul(GF(2));
    }
    assert_eq!(powers, power_direct);
}

#[test]
fn test_neg() {
    for a in 0..255 {
        let a = GF(a);
        let ma = a.neg();
        assert_eq!(a.add(ma), GF(0), "{:?}, {:?}", a, ma);
    }
}

#[test]
fn test_mul_usize() {
    assert_eq!(GF(5).mul_usize(1), GF(5));
    assert_eq!(GF(5).mul_usize(2), GF(5).add(GF(5)));
}

#[test]
fn test_evaluate_primitive() {
    let c = [GF(90), GF(0), GF(23), GF(0), GF(1)];
    let mut out = vec![GF(0); 3];
    primitive_element_evaluation(&c, &mut out);
    assert_eq!(out, vec![GF(100), GF(187), GF(131)]);
}

#[test]
fn test_solve_1x1() {
    let mut mat = vec![GF(5)];
    let mut b = vec![GF(88)];
    let solved = solve(&mut mat, &mut b, 1);
    assert!(solved);
    assert_eq!(b, [GF(170)]);
}

#[test]
fn test_solve_2x2() {
    let mut mat = vec![GF(2), GF(1), GF(5), GF(2)];
    let mut b = vec![GF(56), GF(23)];
    let solved = solve(&mut mat, &mut b, 2);
    assert!(solved);
    assert_eq!(GF(2).mul(b[0]).add(GF(1).mul(b[1])), GF(56));
    assert_eq!(GF(5).mul(b[0]).add(GF(2).mul(b[1])), GF(23));
}

#[test]
fn test_solve_3x3_permute() {
    let mut mat = vec![GF(0), GF(0), GF(8), GF(89), GF(0), GF(2), GF(45), GF(10), GF(5)];
    let mut b = vec![GF(126), GF(23), GF(99)];
    let solved = solve(&mut mat, &mut b, 3);
    assert!(solved);
    assert_eq!(GF(0).mul(b[0]).add(GF(0).mul(b[1])).add(GF(8).mul(b[2])), GF(126));
    assert_eq!(GF(89).mul(b[0]).add(GF(0).mul(b[1])).add(GF(2).mul(b[2])), GF(23));
    assert_eq!(GF(45).mul(b[0]).add(GF(10).mul(b[1])).add(GF(5).mul(b[2])), GF(99));
}

#[test]
fn test_solve_2x2_singular() {
    let mut mat = vec![GF(2), GF(1), GF(4), GF(2)];
    let mut b = vec![GF(56), GF(23)];
    let solved = solve(&mut mat, &mut b, 2);
    assert!(!solved);
}

#[test]
fn solve_rejects_degenerate_shapes() {
    let mut mat = vec![GF(1); 4];
    let mut empty: Vec<GF> = vec![];
    assert!(!solve(&mut mat, &mut empty, 2));
    let mut b = vec![GF(1), GF(2)];
    assert!(!solve(&mut mat, &mut b, 1));
    let mut short = vec![GF(1); 3];
    assert!(!solve(&mut short, &mut b, 2));
}

#[test]
fn test_primitive_element_evaluation() {
    let x = [GF(128), GF(52), GF(33), GF(83), GF(33)];
    let mut syndromes = vec![GF(0); 5];
    primitive_element_evaluation(&x, &mut syndromes);
    assert_eq!(&syndromes, &[GF(203), GF(50), GF(3), GF(247), GF(100)]);
}

#[test]
fn test_error_code() -> Result<(), ErrorEncodingError> {
    let mut data = vec![1, 2, 3];
    let ecc = encode_error(&data, SymbolSize::Square10)?;
    data.extend_from_slice(&ecc);
    let mut syndromes = vec![GF(0); 5];
    let received: Vec<GF> = data.iter().map(|&b| GF(b)).collect();
    primitive_element_evaluation(&received, &mut syndromes);
    assert_eq!(&syndromes, &[GF(0), GF(0), GF(0), GF(0), GF(0)]);
    Ok(())
}

#[test]
fn test_chien() {
    let c = [GF(135), GF(239), GF(132), GF(21), GF(58), GF(77)];
    let zeros = chien_search(&c);
    assert_eq!(&zeros, &[GF(228), GF(78), GF(43)]);
}

#[test]
fn test_chien2() {
    let c = [GF(1), GF(211)];
    let zeros = chien_search(&c);
    assert_eq!(&zeros, &[GF(211)]);
}

#[test]
fn test_chien3() {
    let c = [GF(1), GF(0)];
    let zeros = chien_search(&c);
    assert_eq!(&zeros, &[GF(0)]);
}

#[test]
fn test_chien4() {
    let c = [GF(2), GF(1)];
    let zeros = chien_search(&c);
    assert_eq!(&zeros, &[GF(1).neg().div(GF(2))]);
}

#[test]
fn solve_vandermonde_diag() -> Result<(), ErrorDecodingError> {
    let mut x = vec![GF(28), GF(181), GF(59), GF(129), GF(189)];
    for tmp in x.iter_mut() {
        *tmp = GF(1).div(*tmp);
    }
    let mut rhs = vec![GF(66), GF(27), GF(189), GF(255), GF(206)];
    let mut y1 = rhs.clone();
    find_error_values_bp(&mut x, &[], &mut y1)?;

    let mut mat = vec![
        GF(28), GF(181), GF(59), GF(129), GF(189), GF(125), GF(250), GF(220), GF(115), GF(186), GF(85),
        GF(18), GF(99), GF(40), GF(254), GF(66), GF(37), GF(133), GF(22), GF(175), GF(251), GF(255),
        GF(1), GF(36), GF(15),
    ];
    let n = x.len();
    solve(&mut mat, &mut rhs, n);

    assert_eq!(&rhs[..], &y1[..]);
    Ok(())
}

fn random_bytes() -> impl FnMut() -> u8 {
    let mut seed = 0;
    move || {
        let modulus = 2u64.pow(31);
        let a = 1103515245u64;
        let c = 12345u64;
        seed = (a * seed + c) % modulus;
        (seed % 256) as u8
    }
}

fn random_data() -> impl FnMut(usize) -> Vec<u8> {
    let mut rnd = random_bytes();
    move |len| {
        let mut v = Vec::with_capacity(len);
        for _ in 0..len {
            v.push(rnd());
        }
        v
    }
}

fn data_codewords_in_block(size: SymbolSize, block: usize) -> usize {
    size.num_data_codewords().saturating_sub(block).div_ceil(size.block_setup().num_ecc_blocks)
}

fn interleaved_position(size: SymbolSize, block: usize, index: usize) -> usize {
    let setup = size.block_setup();
    let num_data = size.num_data_codewords();
    let data_per_block = data_codewords_in_block(size, block);
    if index < data_per_block {
        block + index * setup.num_ecc_blocks
    } else {
        num_data + block + (index - data_per_block) * setup.num_ecc_blocks
    }
}

#[test]
fn test_single_error_in_every_block_is_corrected() -> Result<(), Box<dyn std::error::Error>> {
    let mut random_data = random_data();
    for &size in SymbolList::all().sizes() {
        let setup = size.block_setup();
        let num_data = size.num_data_codewords();
        let data = random_data(num_data);
        let ecc = encode_error(&data, size).map_err(|e| format!("{e:?}"))?;
        let mut correct = data.clone();
        correct.extend_from_slice(&ecc);

        for block in 0..setup.num_ecc_blocks {
            let block_data = data_codewords_in_block(size, block);
            let block_len = block_data + setup.num_ecc_per_block;
            for index in [0, block_data.saturating_sub(1), block_data, block_len.saturating_sub(1)] {
                let position = interleaved_position(size, block, index);
                let mut received = correct.clone();
                received[position] ^= 0x5A;
                decode_error(&mut received, size).map_err(|e| format!("{e:?}"))?;
                assert_eq!(received, correct, "{size:?}: block {block}, codeword {index} (konum {position})");
            }
        }
    }
    Ok(())
}

#[test]
fn test_maximum_errors_per_block_are_corrected() -> Result<(), Box<dyn std::error::Error>> {
    let mut random_data = random_data();
    for &size in SymbolList::all().sizes() {
        let setup = size.block_setup();
        let num_data = size.num_data_codewords();
        let data = random_data(num_data);
        let ecc = encode_error(&data, size).map_err(|e| format!("{e:?}"))?;
        let mut correct = data.clone();
        correct.extend_from_slice(&ecc);

        let correctable = setup.num_ecc_per_block / 2;
        for block in 0..setup.num_ecc_blocks {
            let block_len = data_codewords_in_block(size, block) + setup.num_ecc_per_block;
            let mut received = correct.clone();
            for error in 0..correctable {
                let index = (error * block_len) / correctable.max(1);
                let position = interleaved_position(size, block, index);
                received[position] ^= 0xA5;
            }
            decode_error(&mut received, size).map_err(|e| format!("{e:?}"))?;
            assert_eq!(received, correct, "{size:?}: block {block} içinde {correctable} hata düzeltilemedi");
        }
    }
    Ok(())
}

fn recover(data: &[u8], size: SymbolSize, errors: &[(usize, u8)]) -> Result<(), Box<dyn std::error::Error>> {
    let mut data = data.to_vec();
    let ecc = encode_error(&data, size).map_err(|e| format!("{e:?}"))?;
    data.extend_from_slice(&ecc);
    let mut received = data.clone();
    for &(position, value) in errors {
        received[position] = value;
    }
    decode_error(&mut received, size).map_err(|e| format!("{e:?}"))?;
    assert_eq!(&data, &received);
    Ok(())
}

#[test]
fn test_recovery() -> Result<(), Box<dyn std::error::Error>> {
    let mut data = vec![1, 2, 3];
    let ecc = encode_error(&data, SymbolSize::Square10).map_err(|e| format!("{e:?}"))?;
    data.extend_from_slice(&ecc);
    assert_eq!(data.len(), 3 + 5);
    let mut received = data.clone();
    received[0] = 230;
    received[7] = 32;
    decode_error(&mut received, SymbolSize::Square10).map_err(|e| format!("{e:?}"))?;
    assert_eq!(&data, &received);
    Ok(())
}

#[test]
fn test_recovery1() -> Result<(), Box<dyn std::error::Error>> {
    recover(
        &[255, 255, 255, 72, 52, 38, 52, 52, 52, 52, 52, 52, 52, 52, 52, 72, 0, 0, 72, 0, 0, 10],
        SymbolSize::Square20,
        &[(0, 52), (8, 144)],
    )
}

#[test]
fn test_recovery2() -> Result<(), Box<dyn std::error::Error>> {
    recover(
        &[144, 144, 255, 255, 255, 255, 255, 255, 255, 255, 255, 255, 255, 255, 255, 255, 255, 255, 255, 255, 255, 255],
        SymbolSize::Square20,
        &[(1, 32), (0, 0), (12, 0), (16, 144)],
    )
}

#[test]
fn test_recovery3() -> Result<(), Box<dyn std::error::Error>> {
    recover(
        &[255, 23, 189, 54, 189, 189, 189, 189, 255, 255, 255, 255, 255, 255, 255, 67, 4, 0, 255, 189, 48, 37],
        SymbolSize::Square20,
        &[(0, 247), (1, 49), (5, 255), (6, 0), (8, 49), (10, 0), (12, 65), (15, 177), (16, 32)],
    )
}

#[test]
fn test_recovery4() -> Result<(), Box<dyn std::error::Error>> {
    recover(
        &[49, 95, 49, 44, 49, 49, 0, 0, 0, 32, 255, 247, 255, 254, 189, 189, 189, 189, 189, 189, 189, 189],
        SymbolSize::Square20,
        &[(1, 49), (0, 44), (13, 49), (10, 0), (8, 101), (15, 54), (6, 206), (21, 191), (5, 50)],
    )
}

#[test]
fn annex_i_error_correction_codewords() {
    // "123456" in a 10x10 symbol: data codewords 142 164 186.
    assert_eq!(encode_error(&[142, 164, 186], SymbolSize::Square10), Ok(vec![114, 25, 5, 88, 102]));
}

#[test]
fn encode_error_refuses_wrong_data_size() {
    assert_eq!(
        encode_error(&[1, 2], SymbolSize::Square10),
        Err(ErrorEncodingError::DataSize { expected: 3, actual: 2 })
    );
}

#[test]
fn decode_error_refuses_wrong_size_and_keeps_clean_codewords() {
    let mut short = vec![0u8; 7];
    assert_eq!(
        decode_error(&mut short, SymbolSize::Square10),
        Err(ErrorDecodingError::DataSize { expected: 8, actual: 7 })
    );
    let mut clean = vec![142, 164, 186, 114, 25, 5, 88, 102];
    assert_eq!(decode_error(&mut clean, SymbolSize::Square10), Ok(()));
    assert_eq!(clean, vec![142, 164, 186, 114, 25, 5, 88, 102]);
}

#[test]
fn generator_polynomial_of_five_codewords() {
    let g = datamatrix::errorcode::generator_polynomial(5);
    assert_eq!(g, vec![GF(228), GF(48), GF(15), GF(111), GF(62), GF(1)]);
}

#[test]
fn primitive_power_wraps_at_the_period() {
    assert_eq!(GF::primitive_power(255), GF(1));
    assert_eq!(GF::primitive_power(0), GF(1));
    assert_eq!(GF::primitive_power(1), GF(2));
    assert_eq!(GF::primitive_power(8), GF(45));
}
