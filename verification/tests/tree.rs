use metashrew::bst::{PathError, BST};
use metashrew::index_pointer::IndexPointer;
use metashrew::store::{Lookup, Store};
use std::sync::Arc;

fn resolve<T>(
    store: &mut Store,
    host: &[(Vec<u8>, Vec<u8>)],
    calls: &mut usize,
    mut op: impl FnMut(&mut Store) -> Lookup<T>,
) -> T {
    loop {
        match op(store) {
            Lookup::Found(x) => return x,
            Lookup::Missing(k) => {
                *calls += 1;
                let v = host
                    .iter()
                    .find(|(hk, _)| *hk == k)
                    .map(|(_, v)| v.clone())
                    .unwrap_or_default();
                store.cache_fetched(&k, v);
            }
        }
    }
}

const U: usize = std::mem::size_of::<usize>();

fn mark_key(prefix: &[u8]) -> Vec<u8> {
    let mut k = b"t".to_vec();
    let mut padded = vec![0u8; U];
    padded[..prefix.len()].copy_from_slice(prefix);
    k.extend_from_slice(&padded);
    k.extend_from_slice(b"/mask");
    k
}

fn tree() -> BST<u8> {
    BST::<u8>::new(IndexPointer::from_keyword("t"))
}

#[test]
fn mask_pointer_appends_the_partial_key_and_mask() {
    let t = tree();
    assert_eq!(*t.get_mask_pointer(vec![1, 2]).unwrap(), b"t\x01\x02/mask".to_vec());
}

#[test]
fn marking_an_empty_mask_writes_nothing() {
    let t = tree();
    let mut store = Store::new();
    let host: Vec<(Vec<u8>, Vec<u8>)> = vec![];
    let mut calls = 0;
    assert_eq!(resolve(&mut store, &host, &mut calls, |s| t.mark_path(s, 3)), Ok(()));
    assert_eq!(store.get_cached(&mark_key(&[])), Some(vec![]));
    assert_eq!(store.flush(), Vec::<u8>::new());
}

#[test]
fn marking_sets_the_bit_of_the_key_byte() {
    let t = tree();
    let mut store = Store::new();
    let host: Vec<(Vec<u8>, Vec<u8>)> = vec![(mark_key(&[]), vec![0x01; U])];
    let mut calls = 0;
    assert_eq!(resolve(&mut store, &host, &mut calls, |s| t.mark_path(s, 3)), Ok(()));
    let mut expected = vec![0x01; U];
    expected[0] = 0x11;
    assert_eq!(store.get_cached(&mark_key(&[])), Some(expected));
}

#[test]
fn marking_past_the_mask_fails() {
    let t = tree();
    let mut store = Store::new();
    let host: Vec<(Vec<u8>, Vec<u8>)> = vec![];
    let mut calls = 0;
    assert_eq!(resolve(&mut store, &host, &mut calls, |s| t.mark_path(s, 200)), Err(PathError::MaskTooShort));
}

#[test]
fn unmarking_an_empty_mask_nullifies_it() {
    let t = tree();
    let mut store = Store::new();
    let host: Vec<(Vec<u8>, Vec<u8>)> = vec![];
    let mut calls = 0;
    assert_eq!(resolve(&mut store, &host, &mut calls, |s| t.unmark_path(s, 3)), Ok(()));
    assert_eq!(store.get_cached(&mark_key(&[])), Some(vec![0]));
}

#[test]
fn unmarking_clears_a_lone_bit() {
    let t = tree();
    let mut store = Store::new();
    let mut mask = vec![0u8; U];
    mask[0] = 0x10;
    let host: Vec<(Vec<u8>, Vec<u8>)> = vec![(mark_key(&[]), mask)];
    let mut calls = 0;
    assert_eq!(resolve(&mut store, &host, &mut calls, |s| t.unmark_path(s, 3)), Ok(()));
    assert_eq!(store.get_cached(&mark_key(&[])), Some(vec![0]));
}

#[test]
fn unmarking_a_wide_mask_fails() {
    let t = tree();
    let mut store = Store::new();
    let mut mask = vec![0u8; U * 2];
    mask[0] = 0x10;
    let host: Vec<(Vec<u8>, Vec<u8>)> = vec![(mark_key(&[]), mask)];
    let mut calls = 0;
    assert_eq!(resolve(&mut store, &host, &mut calls, |s| t.unmark_path(s, 3)), Err(PathError::NotUsizeLength));
}

#[test]
fn seek_lower_masks_the_first_nonempty_level() {
    let t = tree();
    let mut store = Store::new();
    let host: Vec<(Vec<u8>, Vec<u8>)> = vec![(b"t/mask".to_vec(), vec![0xff; 32])];
    let mut calls = 0;
    assert_eq!(resolve(&mut store, &host, &mut calls, |s| t.seek_lower(s, 5)), Ok(0));
    let mut expected = vec![0u8; 32];
    expected[15] = 0xf8;
    assert_eq!(store.get_cached(&b"t/mask".to_vec()), Some(expected));
}

#[test]
fn seek_lower_without_masks_reads_every_level() {
    let t = tree();
    let mut store = Store::new();
    let host: Vec<(Vec<u8>, Vec<u8>)> = vec![];
    let mut calls = 0;
    assert_eq!(resolve(&mut store, &host, &mut calls, |s| t.seek_lower(s, 5)), Ok(0));
    assert_eq!(store.get_cached(&b"t/mask".to_vec()), Some(vec![]));
    assert_eq!(store.flush(), Vec::<u8>::new());
}

#[test]
fn seek_lower_errors() {
    let t = tree();
    let mut store = Store::new();
    let host: Vec<(Vec<u8>, Vec<u8>)> = vec![(b"t/mask".to_vec(), vec![0xff; 4])];
    let mut calls = 0;
    assert_eq!(resolve(&mut store, &host, &mut calls, |s| t.seek_lower(s, 5)), Err(PathError::MaskTooShort));
    let mut store = Store::new();
    let host: Vec<(Vec<u8>, Vec<u8>)> = vec![(b"t/mask".to_vec(), vec![0xff; 32])];
    let mut calls = 0;
    assert_eq!(resolve(&mut store, &host, &mut calls, |s| t.seek_lower(s, 128)), Err(PathError::ShiftOverflow));
}

#[test]
fn stubs_give_the_zero_key() {
    assert_eq!(BST::<u8>::seek_greater(9), 0);
    assert_eq!(BST::<u8>::get(1), vec![0]);
    BST::<u8>::set(1, vec![2]);
    BST::<u8>::nullify(1);
}

#[test]
fn a_missing_mask_is_named_and_nothing_changes() {
    let t = tree();
    let mut store = Store::new();
    match t.mark_path(&mut store, 3) {
        Lookup::Missing(k) => assert_eq!(k, mark_key(&[])),
        Lookup::Found(_) => panic!("no mask is cached"),
    }
    match t.seek_lower(&mut store, 5) {
        Lookup::Missing(k) => assert_eq!(k, b"t/mask".to_vec()),
        Lookup::Found(_) => panic!("no mask is cached"),
    }
    assert!(store.get_cache().is_empty());
}

#[test]
fn mark_then_unmark_on_a_clear_path_leaves_it_clear() {
    let t = tree();
    let mut store = Store::new();
    let host: Vec<(Vec<u8>, Vec<u8>)> = vec![(mark_key(&[]), vec![0; U])];
    let mut calls = 0;
    assert_eq!(resolve(&mut store, &host, &mut calls, |s| t.mark_path(s, 3)), Ok(()));
    assert_eq!(store.get_cached(&mark_key(&[])), Some(vec![0; U]));
    assert_eq!(resolve(&mut store, &host, &mut calls, |s| t.unmark_path(s, 3)), Ok(()));
    let mask = store.get_cached(&mark_key(&[])).unwrap();
    assert!(mask.iter().all(|b| *b == 0));
}
