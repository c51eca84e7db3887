use datamatrix::placement::path::{bits_to_edge_graph, Edge, Graph};
use datamatrix::placement::{Bitmap, BitmapConversionError, MatrixMap, PathSegment};
use datamatrix::{SymbolList, SymbolSize};

/// For each module, the codeword (1-based) and the bit (1-based, most
/// significant first) that it holds; (0, 1) for a dark padding module and
/// (0, 0) for other modules.
fn log(symbol_size: SymbolSize) -> Vec<(u16, u8)> {
    let mut matrix = MatrixMap::new(symbol_size);
    let positions = matrix.codeword_positions();
    matrix.write_padding();
    let mut log: Vec<(u16, u8)> = matrix.entries().iter().map(|&b| if b { (0, 1) } else { (0, 0) }).collect();
    for (codeword, bits) in positions.iter().enumerate() {
        for (index, &p) in bits.iter().enumerate() {
            log[p] = ((codeword + 1) as u16, (index + 1) as u8);
        }
    }
    log
}

#[test]
fn test_12x12() {
    let log = log(SymbolSize::Square12);
    let should = [
        (2,1), (2,2), (3,6), (3,7), (3,8), (4,3), (4,4), (4,5), (1,1), (1,2),
        (2,3), (2,4), (2,5), (5,1), (5,2), (4,6), (4,7), (4,8), (1,3), (1,4),
        (2,6), (2,7), (2,8), (5,3), (5,4), (5,5), (10,1), (10,2), (1,6), (1,7),
        (1,5), (6,1), (6,2), (5,6), (5,7), (5,8), (10,3), (10,4), (10,5), (7,1),
        (1,8), (6,3), (6,4), (6,5), (9,1), (9,2), (10,6), (10,7), (10,8), (7,3),
        (7,2), (6,6), (6,7), (6,8), (9,3), (9,4), (9,5), (11,1), (11,2), (7,6),
        (7,4), (7,5), (8,1), (8,2), (9,6), (9,7), (9,8), (11,3), (11,4), (11,5),
        (7,7), (7,8), (8,3), (8,4), (8,5), (12,1), (12,2), (11,6), (11,7), (11,8),
        (3,1), (3,2), (8,6), (8,7), (8,8), (12,3), (12,4), (12,5), (0,1), (0,0),
        (3,3), (3,4), (3,5), (4,1), (4,2), (12,6), (12,7), (12,8), (0,0), (0,1)
    ];
    assert_eq!(&log, &should);
}

#[test]
fn test_10x10() {
    let log = log(SymbolSize::Square10);
    let should = [
        (2,1), (2,2), (3,6), (3,7), (3,8), (4,3), (4,4), (4,5),
        (2,3), (2,4), (2,5), (5,1), (5,2), (4,6), (4,7), (4,8),
        (2,6), (2,7), (2,8), (5,3), (5,4), (5,5), (1,1), (1,2),
        (1,5), (6,1), (6,2), (5,6), (5,7), (5,8), (1,3), (1,4),
        (1,8), (6,3), (6,4), (6,5), (8,1), (8,2), (1,6), (1,7),
        (7,2), (6,6), (6,7), (6,8), (8,3), (8,4), (8,5), (7,1),
        (7,4), (7,5), (3,1), (3,2), (8,6), (8,7), (8,8), (7,3),
        (7,7), (7,8), (3,3), (3,4), (3,5), (4,1), (4,2), (7,6),
    ];
    assert_eq!(&log, &should);
}

#[test]
fn test_8x32() {
    let log = log(SymbolSize::Rect8x32);
    let should = [
        (2,1), (2,2), (3,6), (3,7), (3,8), (4,3), (4,4), (4,5), (8,1), (8,2), (9,6), (9,7), (9,8), (10,3), (10,4), (10,5), (14,1), (14,2), (15,6), (15,7), (15,8), (16,3), (16,4), (16,5), (20,1), (20,2), (1,4), (1,5),
        (2,3), (2,4), (2,5), (5,1), (5,2), (4,6), (4,7), (4,8), (8,3), (8,4), (8,5), (11,1), (11,2), (10,6), (10,7), (10,8), (14,3), (14,4), (14,5), (17,1), (17,2), (16,6), (16,7), (16,8), (20,3), (20,4), (20,5), (1,6),
        (2,6), (2,7), (2,8), (5,3), (5,4), (5,5), (7,1), (7,2), (8,6), (8,7), (8,8), (11,3), (11,4), (11,5), (13,1), (13,2), (14,6), (14,7), (14,8), (17,3), (17,4), (17,5), (19,1), (19,2), (20,6), (20,7), (20,8), (1,7),
        (1,1), (6,1), (6,2), (5,6), (5,7), (5,8), (7,3), (7,4), (7,5), (12,1), (12,2), (11,6), (11,7), (11,8), (13,3), (13,4), (13,5), (18,1), (18,2), (17,6), (17,7), (17,8), (19,3), (19,4), (19,5), (21,1), (21,2), (1,8),
        (1,2), (6,3), (6,4), (6,5), (3,1), (3,2), (7,6), (7,7), (7,8), (12,3), (12,4), (12,5), (9,1), (9,2), (13,6), (13,7), (13,8), (18,3), (18,4), (18,5), (15,1), (15,2), (19,6), (19,7), (19,8), (21,3), (21,4), (21,5),
        (1,3), (6,6), (6,7), (6,8), (3,3), (3,4), (3,5), (4,1), (4,2), (12,6), (12,7), (12,8), (9,3), (9,4), (9,5), (10,1), (10,2), (18,6), (18,7), (18,8), (15,3), (15,4), (15,5), (16,1), (16,2), (21,6), (21,7), (21,8),
    ];
    assert_eq!(&log, &should);
}

fn random_bytes() -> impl FnMut() -> u8 {
    let mut seed = 0;
    move || {
        let modulus = 2u64.pow(31);
        let a = 1103515245u64;
        let c = 12345u64;
        seed = (a * seed + c) % modulus;
        (seed % 256) as u8
    }
}

fn random_maps() -> impl FnMut(SymbolSize) -> MatrixMap {
    let mut rnd = random_bytes();
    move |size| {
        let mut map = MatrixMap::new(size);
        let count = map.codeword_positions().len();
        let mut values = Vec::with_capacity(count);
        for _ in 0..count {
            let mut bits = [false; 8];
            for bit in bits.iter_mut() {
                *bit = rnd() > 127;
            }
            values.push(bits);
        }
        map.traverse_mut(&values);
        map.write_padding();
        map
    }
}

#[test]
fn test_from_bits_all() -> Result<(), BitmapConversionError> {
    let mut random_map = random_maps();
    for &size in SymbolList::all().sizes() {
        let map = random_map(size);
        let bitmap = map.bitmap();
        let (map2, _size) = MatrixMap::try_from_bits(bitmap.bits(), bitmap.width())?;
        assert_eq!(map.entries(), map2.entries());
    }
    Ok(())
}

#[test]
fn test_bitmap_new() -> Result<(), BitmapConversionError> {
    Bitmap::new(vec![true, false], 2)?;
    Bitmap::new([true, false].to_vec(), 2)?;
    let data = &[true, false];
    Bitmap::new(data.iter().cloned().collect(), 2)?;
    Ok(())
}

#[test]
fn test_bitmap_new_rejects_invalid_boundaries() {
    assert_eq!(Bitmap::new(vec![], 0).err().map(|e| e), Some(BitmapConversionError::ZeroWidth));
    assert_eq!(Bitmap::new(vec![true, false, true], 2).err(), Some(BitmapConversionError::DataSize));
    assert_eq!(Bitmap::new(vec![], usize::MAX).err(), Some(BitmapConversionError::ArithmeticOverflow));
}

#[test]
fn test_codeword_count_is_validated_at_boundary() {
    assert_eq!(
        MatrixMap::new_with_codewords(&[], SymbolSize::Square10).err().map(|e| format!("{e:?}")),
        Some(format!(
            "{:?}",
            BitmapConversionError::CodewordCount { expected: SymbolSize::Square10.num_codewords(), actual: 0 }
        ))
    );
}

#[test]
fn try_from_bits_reports_its_errors() {
    assert_eq!(MatrixMap::try_from_bits(&[true], 0).err().map(|e| format!("{e:?}")), Some("ZeroWidth".to_string()));
    assert_eq!(MatrixMap::try_from_bits(&[true; 3], 2).err().map(|e| format!("{e:?}")), Some("DataSize".to_string()));
    assert_eq!(MatrixMap::try_from_bits(&[true; 9], 3).err().map(|e| format!("{e:?}")), Some("SymbolSize".to_string()));
    assert_eq!(MatrixMap::try_from_bits(&[false; 100], 10).err().map(|e| format!("{e:?}")), Some("Alignment".to_string()));
}

#[test]
fn codeword_bits_round_trip() {
    for v in 0..=255u8 {
        assert_eq!(datamatrix::placement::codeword_value(datamatrix::placement::codeword_bits(v)), v);
    }
    assert_eq!(datamatrix::placement::codeword_bits(0b1000_0001), [true, false, false, false, false, false, false, true]);
}

#[test]
fn bitmap_pixels_and_unicode() -> Result<(), BitmapConversionError> {
    let bitmap = Bitmap::new(vec![true, false, false, true], 2)?;
    assert_eq!(bitmap.pixels(), vec![(0, 0), (1, 1)]);
    assert_eq!(bitmap.unicode(), " \u{2584}  \n  \u{2580} \n");
    assert_eq!(bitmap.dimensions(), (2, 2));
    Ok(())
}

#[test]
fn mini_2x2_one_euler() -> Result<(), BitmapConversionError> {
    let bits = vec![true, false, true, true];
    let bm = Bitmap::new(bits.clone(), 2)?;
    assert_eq!(
        bits_to_edge_graph(&bits, 2, 2)?,
        Graph {
            edges: vec![
                Edge { left: true, top: true },
                Edge { left: true, top: false },
                Edge { left: false, top: false },
                Edge { left: true, top: false },
                Edge { left: false, top: true },
                Edge { left: true, top: false },
                Edge { left: false, top: true },
                Edge { left: false, top: true },
                Edge { left: false, top: false },
            ],
            edge_hint: 0,
            width: 2,
            height: 2,
        }
    );
    assert_eq!(
        bm.path()?,
        vec![
            PathSegment::Horizontal(1),
            PathSegment::Vertical(1),
            PathSegment::Horizontal(1),
            PathSegment::Vertical(1),
            PathSegment::Horizontal(-2),
            PathSegment::Close,
        ],
    );
    Ok(())
}

#[test]
fn mini_2x3_one_euler() -> Result<(), BitmapConversionError> {
    let bm = Bitmap::new(vec![true, false, true, true, true, false], 3)?;
    assert_eq!(
        bm.path()?,
        vec![
            PathSegment::Horizontal(1),
            PathSegment::Vertical(1),
            PathSegment::Horizontal(2),
            PathSegment::Vertical(-1),
            PathSegment::Horizontal(-1),
            PathSegment::Vertical(2),
            PathSegment::Horizontal(-2),
            PathSegment::Close,
        ],
    );
    Ok(())
}

#[test]
fn mini_3x2_two_euler() -> Result<(), BitmapConversionError> {
    let bm = Bitmap::new(vec![true, true, false, false, false, true], 2)?;
    assert_eq!(
        bm.path()?,
        vec![
            PathSegment::Horizontal(2),
            PathSegment::Vertical(1),
            PathSegment::Horizontal(-2),
            PathSegment::Close,
            PathSegment::Move(1, 2),
            PathSegment::Horizontal(1),
            PathSegment::Vertical(1),
            PathSegment::Horizontal(-1),
            PathSegment::Close,
        ],
    );
    Ok(())
}

#[test]
fn empty() -> Result<(), BitmapConversionError> {
    let bm = Bitmap::new(vec![false; 6], 2)?;
    assert_eq!(bm.path()?, vec![]);
    Ok(())
}

#[test]
fn edge_hint() -> Result<(), BitmapConversionError> {
    let bm = Bitmap::new(vec![false, false, true, true, true, true], 3)?;
    let graph = bits_to_edge_graph(bm.bits(), bm.width(), bm.height())?;
    assert_eq!(graph.edge_hint, 2);
    Ok(())
}

#[test]
fn bitmap_has_the_finder_pattern() {
    for size in [SymbolSize::Square10, SymbolSize::Square32, SymbolSize::Rect8x32, SymbolSize::Square144] {
        let data: Vec<u8> = (0..size.num_codewords()).map(|i| (i * 37 % 256) as u8).collect();
        let map = MatrixMap::new_with_codewords(&data, size).unwrap();
        let bitmap = map.bitmap();
        let w = bitmap.width();
        let h = bitmap.height();
        let bits = bitmap.bits();
        for r in 0..h {
            assert!(bits[r * w]);
        }
        for c in 0..w {
            assert!(bits[(h - 1) * w + c]);
            assert_eq!(bits[c], c % 2 == 0);
        }
    }
}

#[test]
fn codewords_read_back_after_placement() {
    for size in [SymbolSize::Square10, SymbolSize::Square24, SymbolSize::Rect16x48, SymbolSize::Square144] {
        let data: Vec<u8> = (0..size.num_codewords()).map(|i| (i * 91 % 256) as u8).collect();
        let map = MatrixMap::new_with_codewords(&data, size).unwrap();
        assert_eq!(map.codewords(), data);
    }
}
