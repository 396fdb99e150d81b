use metashrew::store::{Lookup, Store};
use std::sync::Arc;

fn resolve<T>(
    store: &mut Store,
    host: &[(Vec<u8>, Vec<u8>)],
    calls: &mut usize,
    mut op: impl FnMut(&mut Store) -> Lookup<T>,
) -> T {
    loop {
        match op(store) {
            Lookup::Found(x) => return x,
            Lookup::Missing(k) => {
                *calls += 1;
                let v = host
                    .iter()
                    .find(|(hk, _)| *hk == k)
                    .map(|(_, v)| v.clone())
                    .unwrap_or_default();
                store.cache_fetched(&k, v);
            }
        }
    }
}

fn read(store: &mut Store, host: &[(Vec<u8>, Vec<u8>)], calls: &mut usize, key: Vec<u8>) -> Vec<u8> {
    let k = Arc::new(key);
    (*resolve(store, host, calls, |s| s.get(k.clone()))).clone()
}

#[test]
fn read_after_write_gives_the_written_value_without_the_host() {
    let mut store = Store::new();
    let host = vec![(vec![1], vec![9])];
    let mut calls = 0;
    store.set(Arc::new(vec![1]), Arc::new(vec![2, 3]));
    assert_eq!(read(&mut store, &host, &mut calls, vec![1]), vec![2, 3]);
    assert_eq!(calls, 0);
}

#[test]
fn a_miss_names_the_key_and_is_read_from_the_host_once() {
    let mut store = Store::new();
    let host = vec![(vec![5], vec![6, 7])];
    let mut calls = 0;
    match store.get(Arc::new(vec![5])) {
        Lookup::Missing(k) => assert_eq!(k, vec![5]),
        Lookup::Found(_) => panic!("nothing is cached yet"),
    }
    assert_eq!(read(&mut store, &host, &mut calls, vec![5]), vec![6, 7]);
    assert_eq!(read(&mut store, &host, &mut calls, vec![5]), vec![6, 7]);
    assert_eq!(calls, 1);
    assert_eq!(read(&mut store, &host, &mut calls, vec![8]), Vec::<u8>::new());
    assert_eq!(calls, 2);
    assert!(store.is_cached(&vec![8]));
    assert!(!store.is_cached(&vec![9]));
}

#[test]
fn cache_fetched_caches_and_gives_back_the_value() {
    let mut store = Store::new();
    assert_eq!(*store.cache_fetched(&vec![4], vec![1, 2]), vec![1, 2]);
    assert_eq!(store.get_cached(&vec![4]), Some(vec![1, 2]));
    assert_eq!(store.flush(), Vec::<u8>::new());
}

#[test]
fn flush_sends_keys_and_values_as_field_one() {
    let mut store = Store::new();
    store.set(Arc::new(vec![1]), Arc::new(vec![2]));
    assert!(store.flush_fits());
    assert_eq!(store.flush(), vec![0x0a, 0x01, 0x01, 0x0a, 0x01, 0x02]);
    assert_eq!(store.flush(), Vec::<u8>::new());
}

#[test]
fn flush_sends_the_latest_value_for_each_write() {
    let mut store = Store::new();
    store.set(Arc::new(vec![1]), Arc::new(vec![2]));
    store.set(Arc::new(vec![1]), Arc::new(vec![3]));
    assert_eq!(
        store.flush(),
        vec![0x0a, 0x01, 0x01, 0x0a, 0x01, 0x03, 0x0a, 0x01, 0x01, 0x0a, 0x01, 0x03]
    );
}

#[test]
fn long_values_get_a_two_byte_length() {
    let mut store = Store::new();
    store.set(Arc::new(vec![]), Arc::new(vec![7; 200]));
    let message = store.flush();
    let mut expected = vec![0x0a, 0x00, 0x0a, 0xc8, 0x01];
    expected.extend_from_slice(&[7; 200]);
    assert_eq!(message, expected);
}

#[test]
fn reset_forgets_pending_writes_but_keeps_the_cache() {
    let mut store = Store::new();
    let mut calls = 0;
    store.set(Arc::new(vec![1]), Arc::new(vec![2]));
    store.reset();
    assert_eq!(store.flush(), Vec::<u8>::new());
    assert_eq!(read(&mut store, &[], &mut calls, vec![1]), vec![2]);
    assert_eq!(calls, 0);
}

#[test]
fn get_cache_lists_each_entry_once() {
    let mut store = Store::new();
    store.set(Arc::new(vec![1]), Arc::new(vec![2]));
    store.set(Arc::new(vec![3]), Arc::new(vec![4]));
    store.set(Arc::new(vec![1]), Arc::new(vec![5]));
    let mut entries = store.get_cache();
    entries.sort();
    assert_eq!(entries, vec![(vec![1], vec![5]), (vec![3], vec![4])]);
    assert_eq!(store.get_cached(&vec![3]), Some(vec![4]));
    assert_eq!(store.get_cached(&vec![4]), None);
}
