use simpledb::errors::DbError;
use simpledb::file::page::{Page, ToPageBytes};

#[test]
fn test_set_i32() {
    let mut p = Page::new_from_size(10);
    let _ = p.set_i32(0, 0x10203040);
    let _ = p.set_i32(5, 0x789ABCDE);
    let actual_list = p.contents();
    let expected_list: Vec<u8> = vec![0x10, 0x20, 0x30, 0x40, 0x00, 0x78, 0x9A, 0xBC, 0xDE, 0x00];
    assert_eq!(actual_list, &expected_list);
}

#[test]
fn test_set_string() {
    let mut p = Page::new_from_size(32);
    let _ = p.set_string(0, String::from("hogehoge"));
    let _ = p.set_string(16, String::from("BRABRABRA"));
    let actual_list = p.contents();
    let expected_list: Vec<u8> = vec![
        0x00, 0x00, 0x00, 0x08, 0x68, 0x6F, 0x67, 0x65,
        0x68, 0x6F, 0x67, 0x65, 0x00, 0x00, 0x00, 0x00,
        0x00, 0x00, 0x00, 0x09, 0x42, 0x52, 0x41, 0x42,
        0x52, 0x41, 0x42, 0x52, 0x41, 0x00, 0x00, 0x00,
    ];
    assert_eq!(actual_list, &expected_list);
}

#[test]
fn test_should_throw_buffer_size_exceeded_in_set() {
    let mut p = Page::new_from_size(10);
    let e = p.set(8, 0x10203040).unwrap_err();
    assert_eq!(DbError::BufferSizeExceeded, e);
}

#[test]
fn test_get_i32() {
    let test_binary: Vec<u8> = vec![0x10, 0x20, 0x30, 0x40, 0x00, 0x78, 0x9A, 0xBC, 0xDE, 0x00];
    let p = Page::new_from_bytes(test_binary);
    let i0 = p.get_i32(0).unwrap();
    assert_eq!(0x10203040, i0);
    let i1 = p.get_i32(5).unwrap();
    assert_eq!(0x789ABCDE, i1);
}

#[test]
fn test_get_string() {
    let test_binary: Vec<u8> = vec![
        0x00, 0x00, 0x00, 0x08, 0x68, 0x6F, 0x67, 0x65,
        0x68, 0x6F, 0x67, 0x65, 0x00, 0x00, 0x00, 0x00,
        0x00, 0x00, 0x00, 0x09, 0x42, 0x52, 0x41, 0x42,
        0x52, 0x41, 0x42, 0x52, 0x41, 0x00, 0x00, 0x00,
    ];
    let p = Page::new_from_bytes(test_binary);
    let s0 = p.get_string(0).unwrap();
    assert_eq!("hogehoge", s0);
    let s1 = p.get_string(16).unwrap();
    assert_eq!("BRABRABRA", s1);
}

#[test]
fn test_should_throw_buffer_size_exceeded_in_get() {
    let p = Page::new_from_size(10);
    let e = p.get_i32(8).unwrap_err();
    assert_eq!(DbError::BufferSizeExceeded, e);
}

#[test]
fn test_bytes_roundtrip() {
    let mut p = Page::new_from_size(20);
    let data: Vec<u8> = vec![7, 8, 9];
    let _ = p.set_bytes(4, &data);
    let back = p.get_bytes(4).unwrap();
    assert_eq!(back, data);
}

#[test]
fn test_max_length() {
    assert_eq!(Page::max_length(13), 17);
    assert_eq!(Page::max_length(0), 4);
}

#[test]
fn invalid_utf8_is_reported() {
    let mut p = Page::new_from_size(16);
    let bad: Vec<u8> = vec![0xFF, 0xFE, 0xFD];
    let _ = p.set_bytes(0, &bad);
    let e = p.get_string(0).unwrap_err();
    assert_eq!(e, DbError::InvalidUtf8);
}
