use metashrew::index_pointer::{decimal_digits, IndexPointer};
use metashrew::store::{Lookup, Store};
use std::sync::Arc;

fn resolve<T>(
    store: &mut Store,
    host: &[(Vec<u8>, Vec<u8>)],
    calls: &mut usize,
    mut op: impl FnMut(&mut Store) -> Lookup<T>,
) -> T {
    loop {
        match op(store) {
            Lookup::Found(x) => return x,
            Lookup::Missing(k) => {
                *calls += 1;
                let v = host
                    .iter()
                    .find(|(hk, _)| *hk == k)
                    .map(|(_, v)| v.clone())
                    .unwrap_or_default();
                store.cache_fetched(&k, v);
            }
        }
    }
}

#[test]
fn test_index_pointer() {
    let mut store = Store::new();
    let host: Vec<(Vec<u8>, Vec<u8>)> = vec![];
    let mut calls = 0;
    let ptr = IndexPointer::from_keyword("/test");
    ptr.select_index(0).set(&mut store, Arc::new(vec![0x01, 0x02, 0x03, 0x04]));
    assert_eq!(
        resolve(&mut store, &host, &mut calls, |s| ptr.select_index(0).get(s)).as_ref().clone(),
        vec![0x01, 0x02, 0x03, 0x04]
    );
    assert_eq!(*ptr.select_index(0).unwrap(), b"/test/0".to_vec());
}

#[test]
fn keys_are_built_by_appending() {
    let ptr = IndexPointer::wrap(&b"a".to_vec());
    assert_eq!(*ptr.select(&b"bc".to_vec()).unwrap(), b"abc".to_vec());
    assert_eq!(*ptr.keyword("/x").unwrap(), b"a/x".to_vec());
    assert_eq!(*ptr.length_key().unwrap(), b"a/length".to_vec());
    assert_eq!(*ptr.select_index(1234).unwrap(), b"a/1234".to_vec());
    assert_eq!(*ptr.select_value::<u16>(0x0102).unwrap(), vec![b'a', 2, 1]);
    assert_ne!(*ptr.select_index(1).unwrap(), *ptr.select_index(10).unwrap());
    assert_eq!(decimal_digits(0), b"0".to_vec());
    assert_eq!(decimal_digits(u32::MAX), b"4294967295".to_vec());
}

#[test]
fn typed_values_round_trip_through_the_store() {
    let mut store = Store::new();
    let host: Vec<(Vec<u8>, Vec<u8>)> = vec![];
    let mut calls = 0;
    let ptr = IndexPointer::from_keyword("v");
    ptr.set_value::<u32>(&mut store, 7);
    assert_eq!(resolve(&mut store, &host, &mut calls, |s| ptr.get_value::<u32>(s)), Some(7));
    assert_eq!(resolve(&mut store, &host, &mut calls, |s| ptr.get_value::<u16>(s)), None);
}

#[test]
fn lengths_and_lists() {
    let mut store = Store::new();
    let len_bytes = 3usize.to_le_bytes().to_vec();
    let host = vec![(b"l/length".to_vec(), len_bytes)];
    let mut calls = 0;
    let listed = IndexPointer::from_keyword("l");
    assert_eq!(resolve(&mut store, &host, &mut calls, |s| listed.length::<usize>(s)), Some(3));
    assert_eq!(resolve(&mut store, &host, &mut calls, |s| listed.get_list(s)), Some(vec![]));
    assert_eq!(resolve(&mut store, &host, &mut calls, |s| listed.get_list_values::<u8>(s)), Some(vec![]));
    let missing = IndexPointer::from_keyword("m");
    assert_eq!(resolve(&mut store, &host, &mut calls, |s| missing.length::<usize>(s)), None);
    assert_eq!(resolve(&mut store, &host, &mut calls, |s| missing.get_list(s)), None);
}

#[test]
fn nullify_stores_a_single_zero() {
    let mut store = Store::new();
    let host: Vec<(Vec<u8>, Vec<u8>)> = vec![];
    let mut calls = 0;
    let ptr = IndexPointer::from_keyword("n");
    ptr.nullify(&mut store);
    assert_eq!(*resolve(&mut store, &host, &mut calls, |s| ptr.get(s)), vec![0]);
    ptr.set_or_nullify(&mut store, Arc::new(5usize.to_le_bytes().to_vec()));
    assert_eq!(*resolve(&mut store, &host, &mut calls, |s| ptr.get(s)), 5usize.to_le_bytes().to_vec());
    ptr.set_or_nullify(&mut store, Arc::new(0usize.to_le_bytes().to_vec()));
    assert_eq!(*resolve(&mut store, &host, &mut calls, |s| ptr.get(s)), vec![0]);
}

#[test]
fn an_uncached_read_names_the_pointer_key() {
    let store = Store::new();
    let ptr = IndexPointer::from_keyword("q");
    match ptr.length::<usize>(&store) {
        Lookup::Missing(k) => assert_eq!(k, b"q/length".to_vec()),
        Lookup::Found(_) => panic!("nothing is cached"),
    }
}

#[test]
fn a_value_survives_later_steps_that_do_not_write_its_key() {
    let mut store = Store::new();
    let host = vec![(b"other".to_vec(), vec![1, 2])];
    let mut calls = 0;
    let ptr = IndexPointer::from_keyword("x");
    ptr.set_value::<u64>(&mut store, 0xdead_beef);
    IndexPointer::from_keyword("y").set_value::<u8>(&mut store, 3);
    let other = IndexPointer::from_keyword("other");
    assert_eq!(*resolve(&mut store, &host, &mut calls, |s| other.get(s)), vec![1, 2]);
    ptr.length_key().set_value::<u32>(&mut store, 9);
    let _ = store.flush();
    assert_eq!(resolve(&mut store, &host, &mut calls, |s| ptr.get_value::<u64>(s)), Some(0xdead_beef));
    assert_eq!(resolve(&mut store, &host, &mut calls, |s| ptr.length::<u32>(s)), Some(9));
    assert_eq!(calls, 1);
}
