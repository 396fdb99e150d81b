use metashrew::utils::{format_key, split_parts};

#[test]
fn ascii_parts_are_shown_as_text() {
    assert_eq!(format_key(&b"/abc/de".to_vec()), "//abc/de");
    assert_eq!(format_key(&b"abc".to_vec()), "/abc");
}

#[test]
fn other_parts_are_shown_in_hex() {
    assert_eq!(format_key(&vec![b'/', b'a', b'/', 0xff, 0x01]), "//a/ff01");
}

#[test]
fn empty_key_is_one_empty_part() {
    assert_eq!(format_key(&vec![]), "/");
    assert_eq!(split_parts(&vec![]), vec![Vec::<u8>::new()]);
    assert_eq!(split_parts(&b"a//b".to_vec()), vec![b"a".to_vec(), vec![], b"b".to_vec()]);
}
