use grovedbg_view::display::{
    bytes_as_hex, bytes_as_slice, bytes_by_display_variant, path_full_text, path_label_text,
    DisplayVariant,
};
use grovedbg_view::keys::Path;

#[test]
fn short_byte_lists_in_full() {
    assert_eq!(bytes_as_slice(&[]), "[]");
    assert_eq!(bytes_as_slice(&[1, 20, 255]), "[1, 20, 255]");
    assert_eq!(bytes_as_slice(&[0; 10]), "[0, 0, 0, 0, 0, 0, 0, 0, 0, 0]");
}

#[test]
fn long_byte_lists_with_trailing_dots() {
    let b: Vec<u8> = (0..11).collect();
    assert_eq!(bytes_as_slice(&b), "[0,1,2,3,4,5,6,7,8,9,10,...");
}

#[test]
fn hex_rendering() {
    assert_eq!(bytes_as_hex(&[]), "");
    assert_eq!(bytes_as_hex(&[0x01, 0xab, 0xff]), "01abff");
    let b: Vec<u8> = (0..10).collect();
    assert_eq!(bytes_as_hex(&b), "00010203040506070809");
    let b: Vec<u8> = (0..11).collect();
    assert_eq!(bytes_as_hex(&b), "00010203..0708090a");
}

#[test]
fn display_variants() {
    assert_eq!(bytes_by_display_variant(b"hi", &DisplayVariant::String), "hi");
    assert_eq!(bytes_by_display_variant(&[0xff], &DisplayVariant::String), "\u{fffd}");
    assert_eq!(bytes_by_display_variant(b"hi", &DisplayVariant::Hex), "6869");
    assert_eq!(bytes_by_display_variant(b"hi", &DisplayVariant::U8), "[104, 105]");
    assert_eq!(DisplayVariant::default(), DisplayVariant::String);
}

#[test]
fn path_labels() {
    let v = DisplayVariant::String;
    assert_eq!(path_label_text(&Path(vec![]), &v), "Root subtree");
    assert_eq!(path_label_text(&Path(vec![b"a".to_vec()]), &v), "[a]");
    assert_eq!(path_label_text(&Path(vec![b"a".to_vec(), b"b".to_vec()]), &v), "[a, b]");
    assert_eq!(
        path_label_text(&Path(vec![b"a".to_vec(), b"b".to_vec(), b"c".to_vec()]), &v),
        "[..., b, c]"
    );
    assert_eq!(
        path_full_text(&Path(vec![b"a".to_vec(), b"b".to_vec(), b"c".to_vec()]), &v),
        "[a, b, c]"
    );
    assert_eq!(path_full_text(&Path(vec![b"a".to_vec()]), &v), "[a]");
}
