use oifs::bitmap::Bitmap;

#[test]
fn test_bitmap_operations() {
    let data = vec![0u8; 2];
    let mut bitmap = Bitmap::new(data);

    assert_eq!(bitmap.find_first_free(), Some(0));

    bitmap.set(0);
    assert!(bitmap.get(0));
    assert_eq!(bitmap.find_first_free(), Some(1));

    bitmap.set(1);
    assert!(bitmap.get(1));
    assert_eq!(bitmap.find_first_free(), Some(2));

    bitmap.clear(0);
    assert!(!bitmap.get(0));
    assert_eq!(bitmap.find_first_free(), Some(0));
}

#[test]
fn bitmap_full_has_no_free_bit() {
    let bitmap = Bitmap::new(vec![0xFFu8; 3]);
    assert_eq!(bitmap.find_first_free(), None);
    assert!(bitmap.get(23));
    assert!(!bitmap.get(24));
}

#[test]
fn bitmap_first_free_in_later_byte() {
    let bitmap = Bitmap::new(vec![0xFFu8, 0b0000_0111u8]);
    assert_eq!(bitmap.find_first_free(), Some(11));
}

#[test]
fn bitmap_out_of_range_changes_nothing() {
    let mut bitmap = Bitmap::new(vec![0u8; 1]);
    bitmap.set(8);
    bitmap.clear(100);
    assert!(!bitmap.get(8));
    assert_eq!(bitmap.into_bytes(), vec![0u8]);
}

#[test]
fn bitmap_set_then_clear_restores_bytes() {
    let mut bitmap = Bitmap::new(vec![0b1010_0101u8, 0x00]);
    bitmap.set(9);
    assert_eq!(bitmap.get(9), true);
    bitmap.clear(9);
    assert_eq!(bitmap.into_bytes(), vec![0b1010_0101u8, 0x00]);
}
