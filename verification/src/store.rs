//! The key-value store that pointers read and write: a cache of the values
//! read from the host or written here, the keys written since the last flush,
//! and the message that flushes them.
use std::sync::Arc;
use vstd::prelude::*;

verus! {

/// The answer to a read through the store: the value read, or the key whose
/// value the host must first be asked for and cached with
/// `Store::cache_fetched` before the read is made again. A read that answers
/// `Missing` changes nothing.
pub enum Lookup<T> {
    Found(T),
    Missing(Vec<u8>),
}

/// Whether two byte sequences are equal.
pub fn bytes_eq(a: &Vec<u8>, b: &Vec<u8>) -> (r: bool)
    ensures
        r == (a@ == b@),
{
    if a.len() != b.len() {
        return false;
    }
    let mut i: usize = 0;
    while i < a.len()
        invariant
            a@.len() == b@.len(),
            i <= a@.len(),
            forall|j: int| 0 <= j < i ==> a@[j] == b@[j],
        decreases a@.len() - i,
    {
        if a[i] != b[i] {
            return false;
        }
        i = i + 1;
    }
    assert(a@ =~= b@);
    true
}

/// A copy of a byte vector.
pub fn copy_bytes(v: &[u8]) -> (r: Vec<u8>)
    ensures
        r@ == v@,
{
    let mut r: Vec<u8> = Vec::new();
    let mut i: usize = 0;
    while i < v.len()
        invariant
            i <= v@.len(),
            r@ == v@.subrange(0, i as int),
        decreases v@.len() - i,
    {
        r.push(v[i]);
        i = i + 1;
        assert(r@ =~= v@.subrange(0, i as int));
    }
    assert(v@.subrange(0, v@.len() as int) =~= v@);
    r
}

/// The varint encoding of `v`: seven bits per byte, least significant first,
/// the top bit set on every byte but the last.
pub open spec fn varint(v: nat) -> Seq<u8>
    decreases v,
{
    if v < 128 {
        seq![v as u8]
    } else {
        seq![(v % 128 + 128) as u8] + varint(v / 128)
    }
}

/// The encoding of a length-delimited field: the tag `field * 8 + 2`, the
/// length and the bytes.
pub open spec fn bytes_field(field: nat, b: Seq<u8>) -> Seq<u8> {
    varint(field * 8 + 2) + varint(b.len()) + b
}

/// The encoding of a message whose field 1 repeats the byte strings of `list`.
pub open spec fn repeated_bytes_message(list: Seq<Seq<u8>>) -> Seq<u8>
    decreases list.len(),
{
    if list.len() == 0 {
        Seq::empty()
    } else {
        repeated_bytes_message(list.drop_last()) + bytes_field(1, list.last())
    }
}

/// The list that a flush sends: each pending key followed by its cached value.
pub open spec fn flush_list(pending: Seq<Seq<u8>>, cache: Map<Seq<u8>, Seq<u8>>) -> Seq<Seq<u8>>
    decreases pending.len(),
{
    if pending.len() == 0 {
        Seq::empty()
    } else {
        flush_list(pending.drop_last(), cache).push(pending.last()).push(cache[pending.last()])
    }
}

#[verifier::external_type_specification]
#[verifier::external_body]
pub struct ExProtobufError(protobuf::Error);

/// Appends to `out` what `protobuf::CodedOutputStream::write_bytes` writes for
/// a length-delimited field, then flushes the stream into `out`. Claimed: the
/// tag `field_number * 8 + 2` and the length are written as varints, then the
/// bytes; a stream over a `Vec` does not fail.
#[verifier::external_body]
fn write_bytes_field(out: &mut Vec<u8>, field_number: u32, bytes: &[u8]) -> (r: Result<
    (),
    protobuf::Error,
>)
    requires
        1 <= field_number <= 0x1fff_ffff,
        bytes@.len() <= u32::MAX,
    ensures
        r is Ok,
        final(out)@ == old(out)@ + bytes_field(field_number as nat, bytes@),
{
    let mut os = protobuf::CodedOutputStream::vec(out);
    match os.write_bytes(field_number, bytes) {
        Ok(()) => os.flush(),
        Err(e) => Err(e),
    }
}

/// Encodes a message whose field 1 repeats the byte strings of `list`.
pub fn encode_repeated_bytes(list: &Vec<Vec<u8>>) -> (r: Vec<u8>)
    requires
        forall|i: int| 0 <= i < list@.len() ==> #[trigger] list@[i]@.len() <= u32::MAX,
    ensures
        r@ == repeated_bytes_message(list@.map_values(|b: Vec<u8>| b@)),
{
    let ghost views = list@.map_values(|b: Vec<u8>| b@);
    let mut out: Vec<u8> = Vec::new();
    let mut i: usize = 0;
    while i < list.len()
        invariant
            i <= list@.len(),
            views == list@.map_values(|b: Vec<u8>| b@),
            forall|j: int| 0 <= j < list@.len() ==> #[trigger] list@[j]@.len() <= u32::MAX,
            out@ == repeated_bytes_message(views.subrange(0, i as int)),
        decreases list@.len() - i,
    {
        let r = write_bytes_field(&mut out, 1, list[i].as_slice());
        match r {
            Ok(()) => {},
            Err(_) => {},
        }
        assert(views.subrange(0, i + 1).drop_last() =~= views.subrange(0, i as int));
        i = i + 1;
    }
    assert(views.subrange(0, list@.len() as int) =~= views);
    out
}

/// The cache of stored values and the keys written since the last flush.
pub struct Store {
    keys: Vec<Vec<u8>>,
    values: Vec<Vec<u8>>,
    to_flush: Vec<Vec<u8>>,
}

impl Store {
    /// The cached values, by key.
    pub closed spec fn cache(&self) -> Map<Seq<u8>, Seq<u8>> {
        Map::new(
            |k: Seq<u8>| exists|i: int| 0 <= i < self.keys@.len() && self.keys@[i]@ == k,
            |k: Seq<u8>|
                self.values@[choose|i: int| 0 <= i < self.keys@.len() && self.keys@[i]@ == k]@,
        )
    }

    /// The keys written since the last flush, in the order of the writes.
    pub closed spec fn pending(&self) -> Seq<Seq<u8>> {
        self.to_flush@.map_values(|k: Vec<u8>| k@)
    }

    /// The store's invariant: each key is cached once, and each pending key is cached.
    #[verifier::type_invariant]
    spec fn wf(&self) -> bool {
        &&& self.wf_entries()
        &&& forall|i: int|
            0 <= i < self.to_flush@.len() ==> self.cache().contains_key(
                #[trigger] self.to_flush@[i]@,
            )
    }

    /// Each key is cached once, with one value.
    spec fn wf_entries(&self) -> bool {
        &&& self.keys@.len() == self.values@.len()
        &&& forall|i: int, j: int|
            0 <= i < j < self.keys@.len() ==> self.keys@[i]@ != self.keys@[j]@
    }

    proof fn lemma_cache_at(&self, i: int)
        requires
            self.wf_entries(),
            0 <= i < self.keys@.len(),
        ensures
            self.cache().contains_key(self.keys@[i]@),
            self.cache()[self.keys@[i]@] == self.values@[i]@,
    {
        let k = self.keys@[i]@;
        assert(self.cache().dom().contains(k));
        let c = choose|j: int| 0 <= j < self.keys@.len() && self.keys@[j]@ == k;
        assert(c == i);
    }

    /// An empty store.
    pub fn new() -> (r: Store)
        ensures
            r.cache() == Map::<Seq<u8>, Seq<u8>>::empty(),
            r.pending() == Seq::<Seq<u8>>::empty(),
    {
        let r = Store { keys: Vec::new(), values: Vec::new(), to_flush: Vec::new() };
        assert(r.cache() =~= Map::<Seq<u8>, Seq<u8>>::empty());
        assert(r.pending() =~= Seq::<Seq<u8>>::empty());
        r
    }

    /// Forgets the keys written since the last flush; the cache stays.
    pub fn reset(&mut self)
        ensures
            final(self).cache() == old(self).cache(),
            final(self).pending() == Seq::<Seq<u8>>::empty(),
    {
        proof {
            use_type_invariant(&*self);
        }
        self.to_flush = Vec::new();
        assert(self.pending() =~= Seq::<Seq<u8>>::empty());
        assert(self.cache() =~= old(self).cache());
    }

    fn find(&self, key: &Vec<u8>) -> (r: Option<usize>)
        requires
            self.wf(),
        ensures
            match r {
                Some(i) => i < self.keys@.len() && self.keys@[i as int]@ == key@,
                None => !self.cache().contains_key(key@),
            },
    {
        let mut i: usize = 0;
        while i < self.keys.len()
            invariant
                i <= self.keys@.len(),
                forall|j: int| 0 <= j < i ==> self.keys@[j]@ != key@,
            decreases self.keys@.len() - i,
        {
            if bytes_eq(&self.keys[i], key) {
                return Some(i);
            }
            i = i + 1;
        }
        None
    }

    /// Whether `key` is cached.
    pub fn is_cached(&self, key: &Vec<u8>) -> (r: bool)
        ensures
            r == self.cache().contains_key(key@),
    {
        proof {
            use_type_invariant(self);
        }
        match self.find(key) {
            Some(i) => {
                proof {
                    self.lemma_cache_at(i as int);
                }
                true
            },
            None => false,
        }
    }

    /// The value cached under `key`, if any; the host is not asked.
    pub fn get_cached(&self, key: &Vec<u8>) -> (r: Option<Vec<u8>>)
        ensures
            match r {
                Some(v) => self.cache().contains_key(key@) && v@ == self.cache()[key@],
                None => !self.cache().contains_key(key@),
            },
    {
        proof {
            use_type_invariant(self);
        }
        match self.find(key) {
            Some(i) => {
                proof {
                    self.lemma_cache_at(i as int);
                }
                Some(copy_bytes(self.values[i].as_slice()))
            },
            None => None,
        }
    }

    /// The cached entries, each key once.
    pub fn get_cache(&self) -> (r: Vec<(Vec<u8>, Vec<u8>)>)
        ensures
            forall|i: int|
                0 <= i < r@.len() ==> self.cache().contains_key(#[trigger] r@[i].0@)
                    && self.cache()[r@[i].0@] == r@[i].1@,
            forall|k: Seq<u8>|
                self.cache().contains_key(k) ==> exists|i: int|
                    0 <= i < r@.len() && #[trigger] r@[i].0@ == k,
            forall|i: int, j: int| 0 <= i < j < r@.len() ==> r@[i].0@ != r@[j].0@,
    {
        proof {
            use_type_invariant(self);
        }
        let mut r: Vec<(Vec<u8>, Vec<u8>)> = Vec::new();
        let mut i: usize = 0;
        while i < self.keys.len()
            invariant
                self.wf(),
                i <= self.keys@.len(),
                r@.len() == i,
                forall|j: int|
                    0 <= j < i ==> r@[j].0@ == self.keys@[j]@ && r@[j].1@ == self.values@[j]@,
            decreases self.keys@.len() - i,
        {
            r.push((copy_bytes(self.keys[i].as_slice()), copy_bytes(self.values[i].as_slice())));
            i = i + 1;
        }
        proof {
            assert forall|j: int| 0 <= j < r@.len() implies self.cache().contains_key(
                #[trigger] r@[j].0@,
            ) && self.cache()[r@[j].0@] == r@[j].1@ by {
                self.lemma_cache_at(j);
            }
            assert forall|k: Seq<u8>| self.cache().contains_key(k) implies exists|j: int|
                0 <= j < r@.len() && #[trigger] r@[j].0@ == k by {
                let j = choose|j: int| 0 <= j < self.keys@.len() && self.keys@[j]@ == k;
                assert(r@[j].0@ == k);
            }
            assert forall|a: int, b: int| 0 <= a < b < r@.len() implies r@[a].0@ != r@[b].0@ by {
                assert(r@[a].0@ == self.keys@[a]@ && r@[b].0@ == self.keys@[b]@);
            }
        }
        r
    }

    /// Caches `value` under `key`, replacing what was cached there.
    fn put(&mut self, key: Vec<u8>, value: Vec<u8>)
        ensures
            final(self).cache() == old(self).cache().insert(key@, value@),
            final(self).to_flush@ == old(self).to_flush@,
    {
        proof {
            use_type_invariant(&*self);
        }
        let ghost old_cache = self.cache();
        let ghost before = *self;
        let idx = self.find(&key);
        let mut whole = Store::new();
        std::mem::swap(&mut whole, self);
        let Store { mut keys, mut values, to_flush } = whole;
        match idx {
            Some(i) => {
                values.set(i, value);
            },
            None => {
                keys.push(key);
                values.push(value);
            },
        }
        let ghost after = Store { keys, values, to_flush };
        proof {
            assert(after.keys@.len() == after.values@.len());
            match idx {
                Some(i) => {
                    assert(after.keys@ == before.keys@);
                    assert forall|k: Seq<u8>|
                        #![auto]
                        after.cache().contains_key(k) == old_cache.insert(key@, value@).contains_key(
                            k,
                        ) by {}
                    assert forall|k: Seq<u8>|
                        #![auto]
                        after.cache().contains_key(k) implies after.cache()[k] == old_cache.insert(
                            key@,
                            value@,
                        )[k] by {
                        let j = choose|j: int| 0 <= j < after.keys@.len() && after.keys@[j]@ == k;
                        after.lemma_cache_at(j);
                        before.lemma_cache_at(j);
                    }
                },
                None => {
                    let n = after.keys@.len() - 1;
                    assert forall|a: int, b: int|
                        0 <= a < b < after.keys@.len() implies after.keys@[a]@ != after.keys@[b]@ by {
                        if b == n {
                            assert(after.keys@[a] == before.keys@[a]);
                            assert(before.cache().contains_key(before.keys@[a]@)) by {
                                assert(0 <= a < before.keys@.len() && before.keys@[a]@ == before.keys@[a]@);
                            }
                        } else {
                            assert(after.keys@[a] == before.keys@[a]);
                            assert(after.keys@[b] == before.keys@[b]);
                        }
                    }
                    assert forall|k: Seq<u8>|
                        #![auto]
                        after.cache().contains_key(k) == old_cache.insert(key@, value@).contains_key(
                            k,
                        ) by {
                        if old_cache.contains_key(k) {
                            let j = choose|j: int|
                                0 <= j < before.keys@.len() && before.keys@[j]@ == k;
                            assert(after.keys@[j] == before.keys@[j]);
                        }
                        if k == key@ {
                            assert(after.keys@[n]@ == k);
                        }
                    }
                    assert forall|k: Seq<u8>|
                        #![auto]
                        after.cache().contains_key(k) implies after.cache()[k] == old_cache.insert(
                            key@,
                            value@,
                        )[k] by {
                        let j = choose|j: int| 0 <= j < after.keys@.len() && after.keys@[j]@ == k;
                        after.lemma_cache_at(j);
                        if j < n {
                            assert(after.keys@[j] == before.keys@[j]);
                            before.lemma_cache_at(j);
                        }
                    }
                },
            }
            assert(after.cache() =~= old_cache.insert(key@, value@));
            assert forall|i: int| 0 <= i < after.to_flush@.len() implies after.cache().contains_key(
                #[trigger] after.to_flush@[i]@,
            ) by {
                assert(before.cache().contains_key(before.to_flush@[i]@));
            }
            assert(after.wf());
        }
        *self = Store { keys, values, to_flush };
    }

    /// The value cached under `v`, or, when `v` is not cached, `v` itself as
    /// the key to read from the host.
    pub fn get(&self, v: Arc<Vec<u8>>) -> (r: Lookup<Arc<Vec<u8>>>)
        ensures
            match r {
                Lookup::Found(x) => self.cache().contains_key(v@) && x@ == self.cache()[v@],
                Lookup::Missing(k) => !self.cache().contains_key(v@) && k@ == v@,
            },
    {
        proof {
            use_type_invariant(self);
        }
        let key: &Vec<u8> = &*v;
        match self.get_cached(key) {
            Some(x) => Lookup::Found(Arc::new(x)),
            None => Lookup::Missing(copy_bytes(key.as_slice())),
        }
    }

    /// Caches `value`, read from the host, under the key `key` that was not
    /// cached, and gives it back; nothing becomes pending.
    pub fn cache_fetched(&mut self, key: &Vec<u8>, value: Vec<u8>) -> (r: Arc<Vec<u8>>)
        requires
            !old(self).cache().contains_key(key@),
        ensures
            final(self).cache() == old(self).cache().insert(key@, value@),
            final(self).pending() == old(self).pending(),
            r@ == value@,
    {
        proof {
            use_type_invariant(&*self);
        }
        let result = copy_bytes(value.as_slice());
        self.put(copy_bytes(key.as_slice()), value);
        proof {
            assert(self.pending() =~= old(self).pending());
        }
        Arc::new(result)
    }

    /// Whether every pending key and its cached value fit the 32-bit length
    /// field of the flush message.
    pub fn flush_fits(&self) -> (r: bool)
        ensures
            r == (forall|i: int|
                0 <= i < self.pending().len() ==> #[trigger] self.pending()[i].len() <= u32::MAX
                    && self.cache()[self.pending()[i]].len() <= u32::MAX),
    {
        proof {
            use_type_invariant(self);
        }
        let mut i: usize = 0;
        while i < self.to_flush.len()
            invariant
                self.wf(),
                i <= self.to_flush@.len(),
                forall|j: int|
                    0 <= j < i ==> #[trigger] self.pending()[j].len() <= u32::MAX
                        && self.cache()[self.pending()[j]].len() <= u32::MAX,
            decreases self.to_flush@.len() - i,
        {
            let item = &self.to_flush[i];
            proof {
                assert(self.pending()[i as int] == item@);
                assert(self.cache().contains_key(self.to_flush@[i as int]@));
            }
            if item.len() as u64 > 0xffff_ffffu64 {
                return false;
            }
            match self.find(item) {
                Some(j) => {
                    proof {
                        self.lemma_cache_at(j as int);
                    }
                    if self.values[j].len() as u64 > 0xffff_ffffu64 {
                        return false;
                    }
                },
                None => {},
            }
            i = i + 1;
        }
        true
    }

    /// Stores `v` under `k` and records `k` as written.
    pub fn set(&mut self, k: Arc<Vec<u8>>, v: Arc<Vec<u8>>)
        ensures
            final(self).cache() == old(self).cache().insert(k@, v@),
            final(self).pending() == old(self).pending().push(k@),
    {
        proof {
            use_type_invariant(&*self);
        }
        let key: &Vec<u8> = &*k;
        let value: &Vec<u8> = &*v;
        self.put(copy_bytes(key.as_slice()), copy_bytes(value.as_slice()));
        proof {
            use_type_invariant(&*self);
        }
        let mut pending: Vec<Vec<u8>> = Vec::new();
        std::mem::swap(&mut pending, &mut self.to_flush);
        pending.push(copy_bytes(key.as_slice()));
        proof {
            assert forall|i: int| 0 <= i < pending@.len() implies self.cache().contains_key(
                #[trigger] pending@[i]@,
            ) by {
                if i < pending@.len() - 1 {
                    assert(pending@[i] == old(self).to_flush@[i]);
                    assert(old(self).cache().contains_key(old(self).to_flush@[i]@));
                }
            }
        }
        self.to_flush = pending;
        proof {
            assert(self.pending() =~= old(self).pending().push(k@));
        }
    }

    /// The message that sends every key written since the last flush with its
    /// cached value; the store then has no pending key.
    pub fn flush(&mut self) -> (r: Vec<u8>)
        requires
            forall|i: int|
                0 <= i < old(self).pending().len() ==> #[trigger] old(self).pending()[i].len()
                    <= u32::MAX && old(self).cache()[old(self).pending()[i]].len() <= u32::MAX,
        ensures
            final(self).cache() == old(self).cache(),
            final(self).pending() == Seq::<Seq<u8>>::empty(),
            r@ == repeated_bytes_message(flush_list(old(self).pending(), old(self).cache())),
    {
        proof {
            use_type_invariant(&*self);
        }
        let ghost pending = self.pending();
        let ghost cache = self.cache();
        let mut to_encode: Vec<Vec<u8>> = Vec::new();
        let mut i: usize = 0;
        while i < self.to_flush.len()
            invariant
                self.wf(),
                pending == self.pending(),
                cache == self.cache(),
                i <= self.to_flush@.len(),
                to_encode@.map_values(|b: Vec<u8>| b@) == flush_list(
                    pending.subrange(0, i as int),
                    cache,
                ),
                forall|j: int|
                    0 <= j < pending.len() ==> #[trigger] pending[j].len() <= u32::MAX
                        && cache[pending[j]].len() <= u32::MAX,
                forall|j: int|
                    0 <= j < to_encode@.len() ==> #[trigger] to_encode@[j]@.len() <= u32::MAX,
            decreases self.to_flush@.len() - i,
        {
            let item = &self.to_flush[i];
            proof {
                assert(self.cache().contains_key(self.to_flush@[i as int]@));
                assert(pending[i as int] == self.to_flush@[i as int]@);
            }
            let idx = self.find(item);
            let value = match idx {
                Some(j) => {
                    proof {
                        self.lemma_cache_at(j as int);
                    }
                    copy_bytes(self.values[j].as_slice())
                },
                None => Vec::new(),
            };
            let ghost before = to_encode@;
            to_encode.push(copy_bytes(item.as_slice()));
            to_encode.push(value);
            proof {
                let p = pending.subrange(0, i + 1);
                assert(p.drop_last() =~= pending.subrange(0, i as int));
                assert(to_encode@.map_values(|b: Vec<u8>| b@) =~= before.map_values(
                    |b: Vec<u8>| b@,
                ).push(pending[i as int]).push(cache[pending[i as int]]));
            }
            i = i + 1;
        }
        proof {
            assert(pending.subrange(0, pending.len() as int) =~= pending);
        }
        self.to_flush = Vec::new();
        proof {
            assert(self.pending() =~= Seq::<Seq<u8>>::empty());
            assert(self.cache() =~= cache);
        }
        encode_repeated_bytes(&to_encode)
    }
}

} // verus!

verus! {

/// A read of a key after a write to it gives the value written, from the
/// cache; keys not written keep what they had.
pub proof fn lemma_read_after_write(
    cache: Map<Seq<u8>, Seq<u8>>,
    k: Seq<u8>,
    v: Seq<u8>,
    other: Seq<u8>,
)
    ensures
        cache.insert(k, v).contains_key(k),
        cache.insert(k, v)[k] == v,
        other != k ==> cache.insert(k, v).contains_key(other) == cache.contains_key(other),
        other != k && cache.contains_key(other) ==> cache.insert(k, v)[other] == cache[other],
{
}

/// A flush sends, for the `i`-th key written since the last flush, that key
/// at place `2 i` and its current cached value at place `2 i + 1`.
pub proof fn lemma_flush_list_pairs(pending: Seq<Seq<u8>>, cache: Map<Seq<u8>, Seq<u8>>)
    ensures
        flush_list(pending, cache).len() == 2 * pending.len(),
        forall|i: int|
            0 <= i < pending.len() ==> flush_list(pending, cache)[2 * i] == pending[i]
                && flush_list(pending, cache)[2 * i + 1] == cache[pending[i]],
    decreases pending.len(),
{
    if pending.len() > 0 {
        let front = pending.drop_last();
        lemma_flush_list_pairs(front, cache);
        assert forall|i: int| 0 <= i < pending.len() implies flush_list(pending, cache)[2 * i]
            == pending[i] && flush_list(pending, cache)[2 * i + 1] == cache[pending[i]] by {
            if i < pending.len() - 1 {
                assert(front[i] == pending[i]);
            }
        }
    }
}

/// With no key written since the last flush, a flush sends the empty message.
pub proof fn lemma_flush_nothing(cache: Map<Seq<u8>, Seq<u8>>)
    ensures
        repeated_bytes_message(flush_list(Seq::empty(), cache)) == Seq::<u8>::empty(),
{
}

/// The message for several byte strings is the fields of each, in order.
pub proof fn lemma_message_concat(a: Seq<Seq<u8>>, b: Seq<Seq<u8>>)
    ensures
        repeated_bytes_message(a + b) == repeated_bytes_message(a) + repeated_bytes_message(b),
    decreases b.len(),
{
    if b.len() == 0 {
        assert(a + b =~= a);
        assert(repeated_bytes_message(a) + Seq::<u8>::empty() =~= repeated_bytes_message(a));
    } else {
        lemma_message_concat(a, b.drop_last());
        assert((a + b).drop_last() =~= a + b.drop_last());
        assert(repeated_bytes_message(a) + repeated_bytes_message(b) =~= repeated_bytes_message(a)
            + repeated_bytes_message(b.drop_last()) + bytes_field(1, b.last()));
    }
}

} // verus!

verus! {

/// Whether `after` still holds under `k` what `before` cached there.
pub open spec fn keeps_value(before: Map<Seq<u8>, Seq<u8>>, after: Map<Seq<u8>, Seq<u8>>, k: Seq<u8>) -> bool {
    before.contains_key(k) ==> after.contains_key(k) && after[k] == before[k]
}

/// Every step of the store but a write to `k` keeps what is cached under
/// `k`: a write to another key, caching a value read from the host (which is
/// only done for a key not cached), and the reads, resets and flushes, which
/// leave the cache as it was.
pub proof fn lemma_steps_keep_value(c: Map<Seq<u8>, Seq<u8>>, k: Seq<u8>, other: Seq<u8>, v: Seq<u8>)
    ensures
        other != k ==> keeps_value(c, c.insert(other, v), k),
        !c.contains_key(other) ==> keeps_value(c, c.insert(other, v), k),
        keeps_value(c, c, k),
{
}

/// A run of steps each of which keeps what is cached under `k` keeps it from
/// the first state to the last.
pub proof fn lemma_value_survives(hist: Seq<Map<Seq<u8>, Seq<u8>>>, k: Seq<u8>)
    requires
        hist.len() >= 1,
        forall|i: int| #![trigger hist[i]] 1 <= i < hist.len() ==> keeps_value(hist[i - 1], hist[i], k),
    ensures
        keeps_value(hist[0], hist.last(), k),
    decreases hist.len(),
{
    if hist.len() > 1 {
        let front = hist.drop_last();
        assert forall|i: int| #![trigger front[i]] 1 <= i < front.len() implies keeps_value(front[i - 1], front[i], k) by {
            assert(front[i] == hist[i] && front[i - 1] == hist[i - 1]);
        }
        lemma_value_survives(front, k);
        assert(keeps_value(hist[hist.len() - 2], hist[hist.len() - 1], k));
    }
}

/// After a write of `v` under `k`, and any later steps none of which writes
/// `k`, the cache holds `v` under `k`: a read of `k` is answered from the
/// cache with `v`, and the host is not asked.
pub proof fn lemma_read_after_last_write(
    before: Map<Seq<u8>, Seq<u8>>,
    k: Seq<u8>,
    v: Seq<u8>,
    later: Seq<Map<Seq<u8>, Seq<u8>>>,
)
    requires
        later.len() >= 1,
        later[0] == before.insert(k, v),
        forall|i: int| #![trigger later[i]] 1 <= i < later.len() ==> keeps_value(later[i - 1], later[i], k),
    ensures
        later.last().contains_key(k),
        later.last()[k] == v,
{
    lemma_value_survives(later, k);
}

} // verus!
