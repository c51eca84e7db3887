use datamatrix::gpui::{DataMatrixElement, PreparationError, PreparedDataMatrix, QuietZone};
use datamatrix::placement::{Bitmap, BitmapConversionError};
use datamatrix::{DataMatrix, DataMatrixSegment, SymbolList};

#[test]
fn quiet_zone_rejects_zero() {
    assert_eq!(QuietZone::new(0).err().map(|e| e.supplied()), Some(0));
    assert!(QuietZone::new(0).is_err());
    assert_eq!(QuietZone::new(2).map(QuietZone::modules), Ok(2));
}

#[test]
fn preparation_rejects_empty_bitmap() -> Result<(), BitmapConversionError> {
    let bitmap = Bitmap::new(vec![], 1)?;
    assert_eq!(PreparedDataMatrix::try_from_bitmap(bitmap).err(), Some(PreparationError::EmptyBitmap));
    Ok(())
}

#[test]
fn preparation_caches_dark_runs() -> Result<(), BitmapConversionError> {
    let bitmap = Bitmap::new(vec![false, true, true, false, true, true, true, false], 4)?;
    let prepared = PreparedDataMatrix::try_from_bitmap(bitmap).expect("a valid bitmap is prepared");
    let runs: Vec<_> = prepared.dark_runs().iter().map(|run| (run.x(), run.y(), run.width())).collect();
    assert_eq!(runs, vec![(1, 0, 2), (0, 1, 3)]);
    assert_eq!(prepared.dimensions(), (4, 2));
    Ok(())
}

#[test]
fn prepared_data_is_send_and_sync() {
    fn assert_send_sync<T: Send + Sync>() {}
    assert_send_sync::<DataMatrix>();
    assert_send_sync::<Bitmap>();
    assert_send_sync::<PreparedDataMatrix>();
}

#[test]
fn quiet_zone_minimum_and_default() {
    assert_eq!(QuietZone::minimum().modules(), 1);
    assert_eq!(QuietZone::default().modules(), 1);
}

#[test]
fn element_keeps_the_prepared_symbol() {
    let code = DataMatrix::encode_segments(&[DataMatrixSegment::Data(b"AB")], SymbolList::default())
        .expect("two letters fit");
    let prepared = PreparedDataMatrix::new(&code);
    assert_eq!(prepared.dimensions(), (10, 10));
    assert_eq!(prepared.bitmap().bits(), code.bitmap().bits());
    let _element = DataMatrixElement::from_data_matrix("code".to_string(), &code)
        .with_quiet_zone(QuietZone::new(4).expect("non-zero"))
        .with_foreground(0x112233)
        .with_background(0xffeedd)
        .with_minimum_module_pixels(3)
        .with_aria_label("label".to_string());
}
