//! Pointers to keys of the store: a key is built by appending words to a
//! base key, and a pointer reads and writes the value stored under its key.
use crate::byte_view::{le_value, usize_bytes, ByteView};
use crate::store::{copy_bytes, keeps_value, lemma_read_after_last_write, Lookup, Store};
use std::sync::Arc;
use vstd::prelude::*;
use vstd::string::StringSliceAdditionalSpecFns;

verus! {

/// The bytes of `/length`.
pub open spec fn length_word() -> Seq<u8> {
    seq![47u8, 108u8, 101u8, 110u8, 103u8, 116u8, 104u8]
}

/// The value that `T` reads from `b`, or `None` when it reads none.
pub open spec fn decoded<T: ByteView>(b: Seq<u8>) -> Option<T> {
    if T::spec_accepts(b) {
        Some(T::spec_from_bytes(b))
    } else {
        None
    }
}

/// The decimal digits of `n`, as ASCII bytes.
pub open spec fn decimal(n: nat) -> Seq<u8>
    decreases n,
{
    if n < 10 {
        seq![(48 + n) as u8]
    } else {
        decimal(n / 10).push((48 + n % 10) as u8)
    }
}

/// The number that decimal ASCII digits denote.
pub open spec fn decimal_value(s: Seq<u8>) -> int
    decreases s.len(),
{
    if s.len() == 0 {
        0
    } else {
        decimal_value(s.drop_last()) * 10 + (s.last() - 48)
    }
}

/// Reading the digits of `n` gives `n` back.
pub proof fn lemma_decimal_round_trip(n: nat)
    ensures
        decimal_value(decimal(n)) == n,
    decreases n,
{
    if n >= 10 {
        lemma_decimal_round_trip(n / 10);
        assert(decimal(n).drop_last() =~= decimal(n / 10));
        assert(decimal(n).last() == (48 + n % 10) as u8);
        assert((n / 10) * 10 + n % 10 == n) by (nonlinear_arith);
        let d = decimal(n);
        assert(decimal_value(d) == decimal_value(d.drop_last()) * 10 + (d.last() - 48));
        assert(d.last() - 48 == n % 10);
    } else {
        assert(decimal(n).drop_last() =~= Seq::<u8>::empty());
        assert(decimal(n).last() == (48 + n) as u8);
        let d = decimal(n);
        assert(decimal_value(d) == decimal_value(d.drop_last()) * 10 + (d.last() - 48));
    }
}

/// Distinct indices select distinct keys under a pointer.
pub proof fn lemma_select_index_distinct(key: Seq<u8>, i: nat, j: nat)
    requires
        i != j,
    ensures
        key + seq![47u8] + decimal(i) != key + seq![47u8] + decimal(j),
{
    lemma_decimal_round_trip(i);
    lemma_decimal_round_trip(j);
    let p = key + seq![47u8];
    if p + decimal(i) == p + decimal(j) {
        assert((p + decimal(i)).subrange(p.len() as int, (p + decimal(i)).len() as int) =~= decimal(i));
        assert((p + decimal(j)).subrange(p.len() as int, (p + decimal(j)).len() as int) =~= decimal(j));
    }
}

/// After `set_value::<T>(x)` writes under a key, and any later steps none of
/// which writes that key, `get_value::<T>` of it reads `x` back from the cache.
pub proof fn lemma_value_read_after_last_write<T: ByteView>(
    before: Map<Seq<u8>, Seq<u8>>,
    k: Seq<u8>,
    x: T,
    later: Seq<Map<Seq<u8>, Seq<u8>>>,
)
    requires
        later.len() >= 1,
        later[0] == before.insert(k, T::spec_to_bytes(x)),
        forall|i: int| #![trigger later[i]] 1 <= i < later.len() ==> keeps_value(later[i - 1], later[i], k),
    ensures
        later.last().contains_key(k),
        decoded::<T>(later.last()[k]) == Some(x),
{
    lemma_read_after_last_write(before, k, T::spec_to_bytes(x), later);
    T::lemma_value_round_trip(x);
}

/// After `set_value::<T>(n)` writes under a pointer's length key, and any
/// later steps none of which writes that key, `length::<T>` reads `n` back.
pub proof fn lemma_length_after_last_write<T: ByteView>(
    before: Map<Seq<u8>, Seq<u8>>,
    key: Seq<u8>,
    n: T,
    later: Seq<Map<Seq<u8>, Seq<u8>>>,
)
    requires
        later.len() >= 1,
        later[0] == before.insert(key + length_word(), T::spec_to_bytes(n)),
        forall|i: int| #![trigger later[i]] 1 <= i < later.len() ==> keeps_value(later[i - 1], later[i], key + length_word()),
    ensures
        later.last().contains_key(key + length_word()),
        decoded::<T>(later.last()[key + length_word()]) == Some(n),
{
    lemma_value_read_after_last_write(before, key + length_word(), n, later);
}

/// Selecting `a` then `b` selects the key followed by `a` and then `b`.
pub proof fn lemma_select_composes(key: Seq<u8>, a: Seq<u8>, b: Seq<u8>)
    ensures
        (key + a) + b == key + (a + b),
{
    assert((key + a) + b =~= key + (a + b));
}

/// The decimal digits of `n`, as ASCII bytes.
pub fn decimal_digits(n: u32) -> (r: Vec<u8>)
    ensures
        r@ == decimal(n as nat),
    decreases n,
{
    if n < 10 {
        let mut v: Vec<u8> = Vec::new();
        v.push((48 + n) as u8);
        assert(v@ =~= seq![(48 + n) as u8]);
        v
    } else {
        let mut v = decimal_digits(n / 10);
        v.push((48 + n % 10) as u8);
        v
    }
}

/// `a` followed by `b`.
fn concat_bytes(a: &[u8], b: &[u8]) -> (r: Vec<u8>)
    ensures
        r@ == a@ + b@,
{
    let mut r = copy_bytes(a);
    let mut i: usize = 0;
    while i < b.len()
        invariant
            i <= b@.len(),
            r@ == a@ + b@.subrange(0, i as int),
        decreases b@.len() - i,
    {
        r.push(b[i]);
        i = i + 1;
        assert(r@ =~= a@ + b@.subrange(0, i as int));
    }
    assert(b@.subrange(0, b@.len() as int) =~= b@);
    r
}

/// A key of the store.
#[derive(Debug, Clone)]
pub struct IndexPointer(Arc<Vec<u8>>);

impl View for IndexPointer {
    type V = Seq<u8>;

    closed spec fn view(&self) -> Seq<u8> {
        self.0@
    }
}

impl IndexPointer {
    /// The pointer to the key made of the UTF-8 bytes of `keyword`.
    pub fn from_keyword(keyword: &str) -> (r: IndexPointer)
        ensures
            r@ == keyword.spec_bytes(),
    {
        IndexPointer::wrap(&copy_bytes(keyword.as_bytes()))
    }

    /// The pointer to the key `word`.
    pub fn wrap(word: &Vec<u8>) -> (r: IndexPointer)
        ensures
            r@ == word@,
    {
        IndexPointer(Arc::new(copy_bytes(word.as_slice())))
    }

    /// The pointer's key.
    pub fn unwrap(&self) -> (r: Arc<Vec<u8>>)
        ensures
            r@ == self@,
    {
        self.0.clone()
    }

    /// Stores `v` under the pointer's key.
    pub fn set(&self, store: &mut Store, v: Arc<Vec<u8>>)
        ensures
            final(store).cache() == old(store).cache().insert(self@, v@),
            final(store).pending() == old(store).pending().push(self@),
    {
        store.set(self.unwrap(), v)
    }

    /// The value cached under the pointer's key, or, when it is not cached,
    /// the key to read from the host; see `Store::get`.
    pub fn get(&self, store: &Store) -> (r: Lookup<Arc<Vec<u8>>>)
        ensures
            match r {
                Lookup::Found(x) => store.cache().contains_key(self@) && x@ == store.cache()[self@],
                Lookup::Missing(k) => !store.cache().contains_key(self@) && k@ == self@,
            },
    {
        store.get(self.unwrap())
    }

    /// The pointer to the key followed by `word`.
    pub fn select(&self, word: &Vec<u8>) -> (r: IndexPointer)
        ensures
            r@ == self@ + word@,
    {
        let key: &Vec<u8> = &*self.0;
        IndexPointer(Arc::new(concat_bytes(key.as_slice(), word.as_slice())))
    }

    /// The pointer to the key followed by the UTF-8 bytes of `word`.
    pub fn keyword(&self, word: &str) -> (r: IndexPointer)
        ensures
            r@ == self@ + word.spec_bytes(),
    {
        let key: &Vec<u8> = &*self.0;
        IndexPointer(Arc::new(concat_bytes(key.as_slice(), word.as_bytes())))
    }

    /// Stores the bytes of `v` under the pointer's key.
    pub fn set_value<T: ByteView>(&self, store: &mut Store, v: T)
        ensures
            final(store).cache() == old(store).cache().insert(self@, T::spec_to_bytes(v)),
            final(store).pending() == old(store).pending().push(self@),
    {
        self.set(store, Arc::new(T::to_bytes(v)))
    }

    /// The value read from the bytes cached under the pointer's key, `None`
    /// when `T` reads no value from them; or, when the key is not cached, the
    /// key to read from the host.
    pub fn get_value<T: ByteView>(&self, store: &Store) -> (r: Lookup<Option<T>>)
        ensures
            match r {
                Lookup::Found(x) => store.cache().contains_key(self@) && x == decoded::<T>(store.cache()[self@]),
                Lookup::Missing(k) => !store.cache().contains_key(self@) && k@ == self@,
            },
    {
        match self.get(store) {
            Lookup::Found(bytes) => {
                let b: &Vec<u8> = &*bytes;
                if T::accepts(b.as_slice()) {
                    Lookup::Found(Some(T::from_bytes(copy_bytes(b.as_slice()))))
                } else {
                    Lookup::Found(None)
                }
            },
            Lookup::Missing(k) => Lookup::Missing(k),
        }
    }

    /// The pointer to the key followed by the bytes of `key`.
    pub fn select_value<T: ByteView>(&self, key: T) -> (r: IndexPointer)
        ensures
            r@ == self@ + T::spec_to_bytes(key),
    {
        self.select(&T::to_bytes(key))
    }

    /// The pointer to the key followed by `/length`.
    pub fn length_key(&self) -> (r: IndexPointer)
        ensures
            r@ == self@ + length_word(),
    {
        let word = "/length";
        proof {
            reveal_strlit("/length");
            broadcast use vstd::string::is_ascii_spec_bytes;
            assert(vstd::string::is_ascii(word));
            assert(word.spec_bytes() =~= length_word());
        }
        self.keyword(word)
    }

    /// The value read from the bytes cached under the length key; see `get_value`.
    pub fn length<T: ByteView>(&self, store: &Store) -> (r: Lookup<Option<T>>)
        ensures
            ({
                let k = self@ + length_word();
                match r {
                    Lookup::Found(x) => store.cache().contains_key(k) && x == decoded::<T>(store.cache()[k]),
                    Lookup::Missing(m) => !store.cache().contains_key(k) && m@ == k,
                }
            }),
    {
        self.length_key().get_value::<T>(store)
    }

    /// The pointer to the key followed by `/` and the decimal digits of `index`.
    pub fn select_index(&self, index: u32) -> (r: IndexPointer)
        ensures
            r@ == self@ + seq![47u8] + decimal(index as nat),
    {
        let mut word: Vec<u8> = Vec::new();
        word.push(47u8);
        let digits = decimal_digits(index);
        let full = concat_bytes(word.as_slice(), digits.as_slice());
        assert(word@ =~= seq![47u8]);
        let r = self.select(&full);
        assert(r@ =~= self@ + seq![47u8] + decimal(index as nat));
        r
    }

    /// Reads the list length cached under the length key as a `usize`; the
    /// list is built from an empty allocation of that capacity and so holds
    /// no element. `None` when the length bytes are not a `usize`; when the
    /// length key is not cached, the key to read from the host.
    pub fn get_list(&self, store: &Store) -> (r: Lookup<Option<Vec<Arc<Vec<u8>>>>>)
        ensures
            ({
                let k = self@ + length_word();
                match r {
                    Lookup::Found(Some(list)) => store.cache().contains_key(k)
                        && store.cache()[k].len() == usize_bytes() && list@.len() == 0,
                    Lookup::Found(None) => store.cache().contains_key(k)
                        && store.cache()[k].len() != usize_bytes(),
                    Lookup::Missing(m) => !store.cache().contains_key(k) && m@ == k,
                }
            }),
    {
        match self.length::<usize>(store) {
            Lookup::Found(Some(_n)) => Lookup::Found(Some(Vec::new())),
            Lookup::Found(None) => Lookup::Found(None),
            Lookup::Missing(k) => Lookup::Missing(k),
        }
    }

    /// As `get_list`, for values of type `T`.
    pub fn get_list_values<T: ByteView>(&self, store: &Store) -> (r: Lookup<Option<Vec<T>>>)
        ensures
            ({
                let k = self@ + length_word();
                match r {
                    Lookup::Found(Some(list)) => store.cache().contains_key(k)
                        && store.cache()[k].len() == usize_bytes() && list@.len() == 0,
                    Lookup::Found(None) => store.cache().contains_key(k)
                        && store.cache()[k].len() != usize_bytes(),
                    Lookup::Missing(m) => !store.cache().contains_key(k) && m@ == k,
                }
            }),
    {
        match self.length::<usize>(store) {
            Lookup::Found(Some(_n)) => Lookup::Found(Some(Vec::new())),
            Lookup::Found(None) => Lookup::Found(None),
            Lookup::Missing(k) => Lookup::Missing(k),
        }
    }

    /// Stores the single byte `0` under the pointer's key.
    pub fn nullify(&self, store: &mut Store)
        ensures
            final(store).cache() == old(store).cache().insert(self@, seq![0u8]),
            final(store).pending() == old(store).pending().push(self@),
    {
        let mut zero: Vec<u8> = Vec::new();
        zero.push(0u8);
        assert(zero@ =~= seq![0u8]);
        self.set(store, Arc::new(zero))
    }

    /// Stores `v`, or the single byte `0` when `v` reads as the `usize` zero.
    pub fn set_or_nullify(&self, store: &mut Store, v: Arc<Vec<u8>>)
        requires
            v@.len() == usize_bytes(),
        ensures
            final(store).cache() == old(store).cache().insert(
                self@,
                if le_value(v@) == 0 { seq![0u8] } else { v@ },
            ),
            final(store).pending() == old(store).pending().push(self@),
    {
        let val: &Vec<u8> = &*v;
        let n = <usize as ByteView>::from_bytes(copy_bytes(val.as_slice()));
        proof {
            crate::byte_view::lemma_le_value_bound(v@);
            crate::byte_view::lemma_pow256_widths();
        }
        if n == 0 {
            self.nullify(store);
        } else {
            self.set(store, Arc::new(copy_bytes(val.as_slice())));
        }
    }
}

} // verus!
