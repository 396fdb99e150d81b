use metashrew::byte_view::{le_decode, le_encode, shrink_back, ByteView};
use metashrew::compat::to_arraybuffer_layout;
use metashrew::stdio::stdout;
use metashrew::support_compat;
use std::sync::Arc;

#[test]
fn u16_bytes_are_little_endian() {
    assert_eq!(<u16 as ByteView>::to_bytes(0x1234), vec![0x34, 0x12]);
    assert_eq!(<u16 as ByteView>::from_bytes(vec![0x34, 0x12]), 0x1234);
}

#[test]
fn every_width_round_trips() {
    assert_eq!(<u8 as ByteView>::from_bytes(<u8 as ByteView>::to_bytes(0xab)), 0xab);
    assert_eq!(<u32 as ByteView>::from_bytes(<u32 as ByteView>::to_bytes(0xdead_beef)), 0xdead_beef);
    assert_eq!(<u64 as ByteView>::from_bytes(<u64 as ByteView>::to_bytes(u64::MAX - 5)), u64::MAX - 5);
    let big: u128 = 0x0102_0304_0506_0708_090a_0b0c_0d0e_0f10;
    let bytes = <u128 as ByteView>::to_bytes(big);
    assert_eq!(bytes, big.to_le_bytes().to_vec());
    assert_eq!(<u128 as ByteView>::from_bytes(bytes), big);
    let u = <usize as ByteView>::to_bytes(300);
    assert_eq!(u.len(), std::mem::size_of::<usize>());
    assert_eq!(<usize as ByteView>::from_bytes(u), 300);
}

#[test]
fn accepts_only_the_type_width() {
    assert!(<u8 as ByteView>::accepts(&[1]));
    assert!(!<u8 as ByteView>::accepts(&[1, 2]));
    assert!(<u32 as ByteView>::accepts(&[1, 2, 3, 4]));
    assert!(!<u32 as ByteView>::accepts(&[]));
    assert!(<usize as ByteView>::accepts(&vec![0; std::mem::size_of::<usize>()]));
}

#[test]
fn le_encode_and_decode() {
    assert_eq!(le_encode(0x0102, 2), vec![2, 1]);
    assert_eq!(le_encode(0, 3), vec![0, 0, 0]);
    assert_eq!(le_decode(&[0xff, 0x01]), 0x01ff);
    assert_eq!(le_decode(&[]), 0);
}

#[test]
fn shrink_back_drops_the_tail() {
    assert_eq!(shrink_back(vec![1, 2, 3], 1), vec![1, 2]);
    assert_eq!(shrink_back(vec![1, 2, 3], 3), Vec::<u8>::new());
}

#[test]
fn arraybuffer_layout_prefixes_the_length() {
    let mut expected = 2usize.to_le_bytes().to_vec();
    expected.extend_from_slice(&[7, 9]);
    assert_eq!(to_arraybuffer_layout(Arc::new(vec![7, 9])), expected);
    assert_eq!(support_compat::to_arraybuffer_layout(&[7, 9]), expected);
    let empty = support_compat::to_arraybuffer_layout(&[]);
    assert_eq!(empty, 0usize.to_le_bytes().to_vec());
}

#[test]
fn stdout_frames_text_for_the_log() {
    let mut expected = 2usize.to_le_bytes().to_vec();
    expected.extend_from_slice(b"hi");
    assert_eq!(stdout().log_frame("hi"), expected);
}
