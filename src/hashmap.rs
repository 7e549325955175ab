//! A separate-chaining hash map keyed by `u64`, hashed with a polynomial
//! hash over the key's little-endian bytes.
use vstd::prelude::*;

verus! {

/// Multiplier of the polynomial hash (a prime).
pub const PRIME_BASE: u64 = 257;

/// Buckets made on the first insertion.
const INITIAL_BUCKETS: usize = 8;

/// One step of the polynomial hash: shift in one byte.
pub open spec fn poly_step(h: u64, byte: u8) -> u64 {
    h.wrapping_mul(PRIME_BASE).wrapping_add(byte as u64)
}

/// The polynomial hash of `bytes`, starting from `h`.
pub open spec fn poly_fold(h: u64, bytes: Seq<u8>) -> u64
    decreases bytes.len(),
{
    if bytes.len() == 0 {
        h
    } else {
        poly_step(poly_fold(h, bytes.drop_last()), bytes.last())
    }
}

/// The little-endian bytes of `k`.
pub open spec fn key_bytes(k: u64) -> Seq<u8> {
    Seq::new(8, |i: int| ((k >> (8 * i) as u64) & 0xff) as u8)
}

/// The hash of a key.
pub open spec fn hash_of(k: u64) -> u64 {
    poly_fold(0, key_bytes(k))
}

/// The bucket that holds `k` among `n` buckets.
pub open spec fn bucket_of(k: u64, n: nat) -> int {
    (hash_of(k) as usize) as int % (n as int)
}

/// A polynomial hasher over bytes.
struct FastPolynomialHasher(u64);

impl FastPolynomialHasher {
    fn new() -> (r: Self)
        ensures
            r.0 == 0,
    {
        FastPolynomialHasher(0)
    }

    fn write(&mut self, bytes: &[u8])
        ensures
            final(self).0 == poly_fold(old(self).0, bytes@),
    {
        let ghost h0 = self.0;
        let mut i: usize = 0;
        while i < bytes.len()
            invariant
                0 <= i <= bytes@.len(),
                self.0 == poly_fold(h0, bytes@.take(i as int)),
            decreases bytes@.len() - i,
        {
            let byte = bytes[i];
            self.0 = self.0.wrapping_mul(PRIME_BASE).wrapping_add(byte as u64);
            assert(bytes@.take(i + 1).drop_last() == bytes@.take(i as int));
            i = i + 1;
        }
        assert(bytes@.take(i as int) == bytes@);
    }

    fn write_u64(&mut self, k: u64)
        ensures
            final(self).0 == poly_fold(old(self).0, key_bytes(k)),
    {
        let mut bytes: Vec<u8> = Vec::with_capacity(8);
        let mut i: u64 = 0;
        while i < 8
            invariant
                0 <= i <= 8,
                bytes@ == key_bytes(k).take(i as int),
            decreases 8 - i,
        {
            bytes.push(((k >> (8 * i)) & 0xff) as u8);
            assert(bytes@ =~= key_bytes(k).take(i + 1));
            i = i + 1;
        }
        assert(bytes@ =~= key_bytes(k));
        self.write(bytes.as_slice());
    }

    fn finish(&self) -> (r: u64)
        ensures
            r == self.0,
    {
        self.0
    }
}

struct Entry<V> {
    key: u64,
    value: V,
    hash: u64,
}

/// Every entry sits in the bucket of its key, with its hash cached, and
/// agrees with `m`.
spec fn entries_ok<V>(bk: Seq<Vec<Entry<V>>>, m: Map<u64, V>) -> bool {
    forall|b: int, i: int|
        0 <= b < bk.len() && 0 <= i < bk[b]@.len() ==> {
            let e = #[trigger] bk[b]@[i];
            &&& e.hash == hash_of(e.key)
            &&& bucket_of(e.key, bk.len()) == b
            &&& m.contains_key(e.key)
            &&& m[e.key] == e.value
        }
}

/// `k` has an entry in its bucket.
spec fn has_entry<V>(bk: Seq<Vec<Entry<V>>>, k: u64) -> bool {
    bk.len() > 0 && exists|i: int|
        0 <= i < bk[bucket_of(k, bk.len())]@.len() && #[trigger] bk[bucket_of(k, bk.len())]@[i].key == k
}

/// Every key of `m` has an entry.
spec fn complete<V>(bk: Seq<Vec<Entry<V>>>, m: Map<u64, V>) -> bool {
    forall|k: u64| #[trigger] m.contains_key(k) ==> has_entry(bk, k)
}

/// No bucket holds a key twice.
spec fn distinct<V>(bk: Seq<Vec<Entry<V>>>) -> bool {
    forall|b: int, i: int, j: int|
        0 <= b < bk.len() && 0 <= i < j < bk[b]@.len() ==> #[trigger] bk[b]@[i].key != #[trigger] bk[b]@[j].key
}

spec fn layout_ok<V>(bk: Seq<Vec<Entry<V>>>, m: Map<u64, V>) -> bool {
    entries_ok(bk, m) && complete(bk, m) && distinct(bk)
}

/// The key-value pairs of the first `nb` buckets, bucket by bucket, each in
/// its order.
spec fn flat<V>(bk: Seq<Vec<Entry<V>>>, nb: int) -> Seq<(u64, V)>
    decreases nb,
{
    if nb <= 0 {
        Seq::empty()
    } else {
        flat(bk, nb - 1) + bk[nb - 1]@.map_values(|e: Entry<V>| (e.key, e.value))
    }
}

/// The pairs of earlier buckets are a prefix of those of later ones.
proof fn lemma_flat_prefix<V>(bk: Seq<Vec<Entry<V>>>, b: int, e: int, nb: int)
    requires
        0 <= b < nb <= bk.len(),
        0 <= e < bk[b]@.len(),
    ensures
        flat(bk, b).len() + e < flat(bk, nb).len(),
        flat(bk, nb)[flat(bk, b).len() + e] == (bk[b]@[e].key, bk[b]@[e].value),
    decreases nb,
{
    if nb > b + 1 {
        lemma_flat_prefix(bk, b, e, nb - 1);
    }
}

/// Each position of the pairs comes from one entry.
proof fn lemma_flat_position<V>(bk: Seq<Vec<Entry<V>>>, nb: int, i: int) -> (be: (int, int))
    requires
        0 <= nb <= bk.len(),
        0 <= i < flat(bk, nb).len(),
    ensures
        0 <= be.0 < nb,
        0 <= be.1 < bk[be.0]@.len(),
        i == flat(bk, be.0).len() + be.1,
    decreases nb,
{
    if i < flat(bk, nb - 1).len() {
        lemma_flat_position(bk, nb - 1, i)
    } else {
        (nb - 1, i - flat(bk, nb - 1).len())
    }
}

/// Replacing the entry of `key` in its bucket keeps the layout, with `key`
/// now mapped to `value`.
proof fn lemma_replace_entry<V>(
    ob: Seq<Vec<Entry<V>>>,
    nb: Seq<Vec<Entry<V>>>,
    m: Map<u64, V>,
    key: u64,
    value: V,
    index: int,
    pos: int,
)
    requires
        layout_ok(ob, m),
        0 <= index < ob.len(),
        bucket_of(key, ob.len()) == index,
        0 <= pos < ob[index]@.len(),
        ob[index]@[pos].key == key,
        nb.len() == ob.len(),
        forall|b: int| 0 <= b < ob.len() && b != index ==> nb[b] == ob[b],
        nb[index]@.len() == ob[index]@.len(),
        nb[index]@[pos].key == key,
        nb[index]@[pos].value == value,
        nb[index]@[pos].hash == hash_of(key),
        forall|j: int| 0 <= j < ob[index]@.len() && j != pos ==> nb[index]@[j] == ob[index]@[j],
    ensures
        layout_ok(nb, m.insert(key, value)),
{
    let m2 = m.insert(key, value);
    assert forall|b: int, i: int| 0 <= b < nb.len() && 0 <= i < nb[b]@.len() implies {
        let e = #[trigger] nb[b]@[i];
        &&& e.hash == hash_of(e.key)
        &&& bucket_of(e.key, nb.len()) == b
        &&& m2.contains_key(e.key)
        &&& m2[e.key] == e.value
    } by {
        if b == index && i == pos {
        } else if b == index {
            assert(ob[b]@[i] == nb[b]@[i]);
            assert(ob[index]@[pos].key != ob[index]@[i].key || i == pos);
        } else {
            assert(ob[b]@[i] == nb[b]@[i]);
        }
    }
    assert forall|k: u64| #[trigger] m2.contains_key(k) implies has_entry(nb, k) by {
        if k == key {
            assert(nb[index]@[pos].key == k);
        } else {
            assert(m.contains_key(k));
            assert(has_entry(ob, k));
            let i = choose|i: int|
                0 <= i < ob[bucket_of(k, ob.len())]@.len() && #[trigger] ob[bucket_of(k, ob.len())]@[i].key == k;
            let b = bucket_of(k, ob.len());
            if b == index {
                assert(i != pos);
                assert(nb[b]@[i] == ob[b]@[i]);
            } else {
                assert(nb[b] == ob[b]);
            }
            assert(nb[b]@[i].key == k);
        }
    }
    assert forall|b: int, i: int, j: int|
        0 <= b < nb.len() && 0 <= i < j < nb[b]@.len() implies #[trigger] nb[b]@[i].key
        != #[trigger] nb[b]@[j].key by {
        if b == index {
            assert(ob[b]@[i].key != ob[b]@[j].key);
            if i != pos {
                assert(nb[b]@[i] == ob[b]@[i]);
            }
            if j != pos {
                assert(nb[b]@[j] == ob[b]@[j]);
            }
        } else {
            assert(nb[b] == ob[b]);
            assert(ob[b]@[i].key != ob[b]@[j].key);
        }
    }
}

/// Appending an entry for a key that has none keeps the layout, with `key`
/// now mapped to `value`.
proof fn lemma_push_entry<V>(
    ob: Seq<Vec<Entry<V>>>,
    nb: Seq<Vec<Entry<V>>>,
    m: Map<u64, V>,
    key: u64,
    value: V,
    index: int,
)
    requires
        layout_ok(ob, m),
        0 <= index < ob.len(),
        bucket_of(key, ob.len()) == index,
        forall|j: int| 0 <= j < ob[index]@.len() ==> ob[index]@[j].key != key,
        nb.len() == ob.len(),
        forall|b: int| 0 <= b < ob.len() && b != index ==> nb[b] == ob[b],
        nb[index]@.len() == ob[index]@.len() + 1,
        nb[index]@.last().key == key,
        nb[index]@.last().value == value,
        nb[index]@.last().hash == hash_of(key),
        forall|j: int| 0 <= j < ob[index]@.len() ==> nb[index]@[j] == ob[index]@[j],
    ensures
        layout_ok(nb, m.insert(key, value)),
        !m.contains_key(key),
{
    let m2 = m.insert(key, value);
    let last = ob[index]@.len() as int;
    if m.contains_key(key) {
        assert(has_entry(ob, key));
        let i = choose|i: int|
            0 <= i < ob[bucket_of(key, ob.len())]@.len() && #[trigger] ob[bucket_of(key, ob.len())]@[i].key == key;
        assert(ob[index]@[i].key == key);
    }
    assert forall|b: int, i: int| 0 <= b < nb.len() && 0 <= i < nb[b]@.len() implies {
        let e = #[trigger] nb[b]@[i];
        &&& e.hash == hash_of(e.key)
        &&& bucket_of(e.key, nb.len()) == b
        &&& m2.contains_key(e.key)
        &&& m2[e.key] == e.value
    } by {
        if b == index && i == last {
        } else if b == index {
            assert(ob[b]@[i] == nb[b]@[i]);
        } else {
            assert(ob[b]@[i] == nb[b]@[i]);
        }
    }
    assert forall|k: u64| #[trigger] m2.contains_key(k) implies has_entry(nb, k) by {
        if k == key {
            assert(nb[index]@[last].key == k);
        } else {
            assert(m.contains_key(k));
            assert(has_entry(ob, k));
            let i = choose|i: int|
                0 <= i < ob[bucket_of(k, ob.len())]@.len() && #[trigger] ob[bucket_of(k, ob.len())]@[i].key == k;
            let b = bucket_of(k, ob.len());
            if b == index {
                assert(nb[b]@[i] == ob[b]@[i]);
            } else {
                assert(nb[b] == ob[b]);
            }
            assert(nb[b]@[i].key == k);
        }
    }
    assert forall|b: int, i: int, j: int|
        0 <= b < nb.len() && 0 <= i < j < nb[b]@.len() implies #[trigger] nb[b]@[i].key
        != #[trigger] nb[b]@[j].key by {
        if b == index {
            assert(nb[b]@[i] == ob[b]@[i]);
            if j != last {
                assert(nb[b]@[j] == ob[b]@[j]);
                assert(ob[b]@[i].key != ob[b]@[j].key);
            }
        } else {
            assert(nb[b] == ob[b]);
            assert(ob[b]@[i].key != ob[b]@[j].key);
        }
    }
}

/// A hash map from `u64` keys to values, with chained buckets that double
/// when the load passes three quarters.
pub struct HashMap<V> {
    buckets: Vec<Vec<Entry<V>>>,
    size: usize,
    contents: Ghost<Map<u64, V>>,
}

impl<V> View for HashMap<V> {
    type V = Map<u64, V>;

    closed spec fn view(&self) -> Map<u64, V> {
        self.contents@
    }
}

impl<V> HashMap<V> {
    /// Every entry sits in the bucket of its key, with its hash cached, and
    /// agrees with the contents; every key of the contents has an entry; no
    /// bucket holds a key twice.
    pub closed spec fn wf(&self) -> bool {
        &&& self.contents@.dom().finite()
        &&& self.size == self.contents@.len()
        &&& self.buckets@.len() <= usize::MAX / 2
        &&& layout_ok(self.buckets@, self.contents@)
    }

    /// The key-value pairs in the order in which iteration yields them.
    pub closed spec fn pairs(&self) -> Seq<(u64, V)> {
        flat(self.buckets@, self.buckets@.len() as int)
    }

    /// The pairs hold each key of the map once, with its value, and nothing
    /// else.
    pub proof fn lemma_pairs_match(&self)
        requires
            self.wf(),
        ensures
            forall|i: int| 0 <= i < self.pairs().len() ==> #[trigger] self@.contains_key(self.pairs()[i].0)
                && self@[self.pairs()[i].0] == self.pairs()[i].1,
            forall|k: u64| #[trigger]
                self@.contains_key(k) ==> exists|i: int|
                    0 <= i < self.pairs().len() && #[trigger] self.pairs()[i].0 == k,
            forall|i: int, j: int|
                0 <= i < j < self.pairs().len() ==> #[trigger] self.pairs()[i].0 != #[trigger] self.pairs()[j].0,
            self.pairs().len() == self@.len(),
    {
        let bk = self.buckets@;
        let n = bk.len() as int;
        assert(layout_ok(bk, self@));
        assert forall|i: int| 0 <= i < self.pairs().len() implies #[trigger] self@.contains_key(self.pairs()[i].0)
            && self@[self.pairs()[i].0] == self.pairs()[i].1 by {
            let (b, e) = lemma_flat_position(bk, n, i);
            lemma_flat_prefix(bk, b, e, n);
            assert(bk[b]@[e] == bk[b]@[e]);
        }
        assert forall|k: u64| #[trigger] self@.contains_key(k) implies exists|i: int|
            0 <= i < self.pairs().len() && #[trigger] self.pairs()[i].0 == k by {
            assert(has_entry(bk, k));
            let b = bucket_of(k, bk.len());
            let e = choose|e: int| 0 <= e < bk[b]@.len() && #[trigger] bk[b]@[e].key == k;
            lemma_flat_prefix(bk, b, e, n);
            assert(self.pairs()[flat(bk, b).len() + e].0 == k);
        }
        assert forall|i: int, j: int| 0 <= i < j < self.pairs().len() implies #[trigger] self.pairs()[i].0
            != #[trigger] self.pairs()[j].0 by {
            let (b1, e1) = lemma_flat_position(bk, n, i);
            let (b2, e2) = lemma_flat_position(bk, n, j);
            lemma_flat_prefix(bk, b1, e1, n);
            lemma_flat_prefix(bk, b2, e2, n);
            assert(bk[b1]@[e1] == bk[b1]@[e1]);
            assert(bk[b2]@[e2] == bk[b2]@[e2]);
            if b1 == b2 {
                if e1 < e2 {
                    assert(bk[b1]@[e1].key != bk[b1]@[e2].key);
                } else {
                    assert(bk[b1]@[e2].key != bk[b1]@[e1].key);
                }
            }
        }
        // the keys of the pairs are the domain, without repeats
        let keys = self.pairs().map_values(|p: (u64, V)| p.0);
        assert(keys.no_duplicates()) by {
            assert forall|i: int, j: int| 0 <= i < keys.len() && 0 <= j < keys.len() && i != j implies keys[i]
                != keys[j] by {
                if i < j {
                    assert(self.pairs()[i].0 != self.pairs()[j].0);
                } else {
                    assert(self.pairs()[j].0 != self.pairs()[i].0);
                }
            }
        }
        assert(keys.to_set() =~= self@.dom()) by {
            assert forall|k: u64| keys.to_set().contains(k) <==> self@.dom().contains(k) by {
                if self@.contains_key(k) {
                    let i = choose|i: int| 0 <= i < self.pairs().len() && #[trigger] self.pairs()[i].0 == k;
                    assert(keys[i] == k);
                }
                if keys.to_set().contains(k) {
                    let i = choose|i: int| 0 <= i < keys.len() && keys[i] == k;
                    assert(self@.contains_key(self.pairs()[i].0));
                }
            }
        }
        keys.unique_seq_to_set();
    }

    /// An iterator over the pairs, bucket by bucket.
    pub fn iter(&self) -> (r: Iter<'_, V>)
        requires
            self.wf(),
        ensures
            r.wf(),
            r.map() == *self,
            r.position() == 0,
    {
        Iter { buckets: &self.buckets, map: self, bucket_index: 0, entry_index: 0 }
    }

    /// An empty map, with no buckets yet.
    pub fn new() -> (r: Self)
        ensures
            r.wf(),
            r@ == Map::<u64, V>::empty(),
    {
        HashMap { buckets: Vec::with_capacity(0), size: 0, contents: Ghost(Map::empty()) }
    }

    /// The hash of `key`.
    fn hash(&self, key: &u64) -> (r: u64)
        ensures
            r == hash_of(*key),
    {
        let mut hasher = FastPolynomialHasher::new();
        hasher.write_u64(*key);
        hasher.finish()
    }

    /// Stores `value` under `key` in the bucket of `key`, replacing the
    /// entry of that key if there is one; the buckets stay as many.
    fn insert_entry(&mut self, key: u64, value: V, hash: u64)
        requires
            old(self).wf(),
            old(self).buckets@.len() > 0,
            old(self)@.len() < usize::MAX,
            hash == hash_of(key),
        ensures
            final(self).wf(),
            final(self)@ == old(self)@.insert(key, value),
            final(self).buckets@.len() == old(self).buckets@.len(),
    {
        let ghost ob = self.buckets@;
        let ghost m = self.contents@;
        let ghost n = self.buckets@.len();
        let index = (hash as usize) % self.buckets.len();
        self.buckets.push(Vec::new());
        let mut bucket = self.buckets.swap_remove(index);
        assert(bucket == ob[index as int]);
        let mut i: usize = 0;
        while i < bucket.len()
            invariant
                0 <= i <= bucket@.len(),
                bucket == ob[index as int],
                layout_ok(ob, m),
                ob == old(self).buckets@,
                m == old(self)@,
                self.contents@ == m,
                self.size == m.len(),
                m.len() < usize::MAX,
                m.dom().finite(),
                n <= usize::MAX / 2,
                hash == hash_of(key),
                index < n,
                n == ob.len(),
                index == bucket_of(key, n),
                self.buckets@.len() == n,
                forall|b: int| 0 <= b < n && b != index ==> self.buckets@[b] == ob[b],
                forall|j: int| 0 <= j < i ==> bucket@[j].key != key,
            decreases bucket@.len() - i,
        {
            if bucket[i].key == key {
                let ghost pos = i as int;
                bucket.set(i, Entry { key, value, hash });
                self.buckets.set(index, bucket);
                self.contents = Ghost(m.insert(key, value));
                proof {
                    lemma_replace_entry(ob, self.buckets@, m, key, value, index as int, pos);
                    assert(m.contains_key(key)) by {
                        assert(ob[index as int]@[pos].key == key);
                    }
                    assert(m.insert(key, value).dom() =~= m.dom());
                }
                return;
            }
            i = i + 1;
        }
        bucket.push(Entry { key, value, hash });
        self.buckets.set(index, bucket);
        self.contents = Ghost(m.insert(key, value));
        proof {
            lemma_push_entry(ob, self.buckets@, m, key, value, index as int);
        }
        self.size = self.size + 1;
    }

    /// A map with `n` empty buckets.
    fn with_buckets(n: usize) -> (r: Self)
        requires
            n <= usize::MAX / 2,
        ensures
            r.wf(),
            r@ == Map::<u64, V>::empty(),
            r.buckets@.len() == n,
    {
        let mut buckets: Vec<Vec<Entry<V>>> = Vec::with_capacity(n);
        let mut i: usize = 0;
        while i < n
            invariant
                0 <= i <= n,
                buckets@.len() == i,
                forall|b: int| 0 <= b < i ==> (#[trigger] buckets@[b])@.len() == 0,
            decreases n - i,
        {
            buckets.push(Vec::new());
            i = i + 1;
        }
        let r = HashMap { buckets, size: 0, contents: Ghost(Map::empty()) };
        assert(layout_ok(r.buckets@, r.contents@));
        r
    }

    /// Makes room: eight buckets for an empty table, else twice as many,
    /// with every entry moved to the bucket of its key.  The contents do not
    /// change.
    fn resize(&mut self)
        requires
            old(self).wf(),
            old(self)@.len() < usize::MAX,
        ensures
            final(self).wf(),
            final(self)@ == old(self)@,
            final(self).buckets@.len() > 0,
            old(self).buckets@.len() == 0 ==> final(self).buckets@.len() == INITIAL_BUCKETS,
            0 < old(self).buckets@.len() <= usize::MAX / 4 ==> final(self).buckets@.len() == 2
                * old(self).buckets@.len(),
    {
        let n = self.buckets.len();
        if n == 0 {
            proof {
                assert(self.contents@.dom() =~= Set::<u64>::empty()) by {
                    assert forall|k: u64| !self.contents@.contains_key(k) by {
                        if self.contents@.contains_key(k) {
                            assert(has_entry(self.buckets@, k));
                        }
                    }
                }
            }
            *self = HashMap::with_buckets(INITIAL_BUCKETS);
            proof {
                assert(self@ =~= old(self)@);
            }
            return;
        }
        if n > usize::MAX / 4 {
            return;
        }
        let new_size = n * 2;
        let ghost m = self.contents@;
        let ghost ob = self.buckets@;
        let mut fresh: HashMap<V> = HashMap::with_buckets(new_size);
        let mut rest: Vec<Vec<Entry<V>>> = Vec::new();
        std::mem::swap(&mut self.buckets, &mut rest);
        while rest.len() > 0
            invariant
                fresh.wf(),
                fresh.buckets@.len() == new_size,
                new_size == 2 * n,
                n == ob.len(),
                layout_ok(ob, m),
                m.dom().finite(),
                m.len() < usize::MAX,
                rest@.len() <= n,
                forall|b: int| 0 <= b < rest@.len() ==> #[trigger] rest@[b] == ob[b],
                forall|k: u64| #[trigger] fresh@.contains_key(k) ==> m.contains_key(k) && fresh@[k] == m[k],
                forall|k: u64|
                    #[trigger] m.contains_key(k) ==> fresh@.contains_key(k) || bucket_of(k, n as nat) < rest@.len(),
            decreases rest@.len(),
        {
            let mut bucket = rest.pop().unwrap();
            let ghost cur = rest@.len() as int;
            assert(bucket == ob[cur]);
            while bucket.len() > 0
                invariant
                    fresh.wf(),
                    fresh.buckets@.len() == new_size,
                    new_size == 2 * n,
                    n == ob.len(),
                    layout_ok(ob, m),
                    m.dom().finite(),
                    m.len() < usize::MAX,
                    cur == rest@.len(),
                    0 <= cur < n,
                    bucket@ == ob[cur]@.take(bucket@.len() as int),
                    bucket@.len() <= ob[cur]@.len(),
                    forall|b: int| 0 <= b < rest@.len() ==> #[trigger] rest@[b] == ob[b],
                    forall|k: u64| #[trigger] fresh@.contains_key(k) ==> m.contains_key(k) && fresh@[k] == m[k],
                    forall|k: u64|
                        #[trigger] m.contains_key(k) ==> fresh@.contains_key(k) || bucket_of(k, n as nat) < cur
                            || (bucket_of(k, n as nat) == cur && exists|i: int|
                            0 <= i < bucket@.len() && #[trigger] ob[cur]@[i].key == k),
                decreases bucket@.len(),
            {
                let ghost len = bucket@.len() as int;
                let e = bucket.pop().unwrap();
                proof {
                    assert(e == ob[cur]@[len - 1]);
                    assert(bucket@ =~= ob[cur]@.take(len - 1));
                    assert(entries_ok(ob, m));
                    vstd::set_lib::lemma_len_subset(fresh@.dom(), m.dom());
                    if fresh@.len() == m.len() {
                        vstd::set_lib::lemma_subset_equality(fresh@.dom(), m.dom());
                    }
                }
                let ghost f0 = fresh@;
                fresh.insert_entry(e.key, e.value, e.hash);
                proof {
                    assert forall|k: u64| #[trigger] m.contains_key(k) implies fresh@.contains_key(k)
                        || bucket_of(k, n as nat) < cur || (bucket_of(k, n as nat) == cur && exists|i: int|
                        0 <= i < bucket@.len() && #[trigger] ob[cur]@[i].key == k) by {
                        if !f0.contains_key(k) && bucket_of(k, n as nat) == cur && k != e.key {
                            let i = choose|i: int| 0 <= i < len && #[trigger] ob[cur]@[i].key == k;
                            assert(i != len - 1);
                        }
                    }
                }
            }
            proof {
                assert forall|k: u64|
                    #[trigger] m.contains_key(k) implies fresh@.contains_key(k) || bucket_of(k, n as nat) < rest@.len() by {
                    if !fresh@.contains_key(k) && bucket_of(k, n as nat) == cur {
                        let i = choose|i: int|
                            0 <= i < bucket@.len() && #[trigger] ob[cur]@[i].key == k;
                    }
                }
            }
        }
        proof {
            assert(fresh@ =~= m) by {
                assert forall|k: u64| fresh@.contains_key(k) == m.contains_key(k) by {
                    if m.contains_key(k) {
                        assert(fresh@.contains_key(k) || bucket_of(k, n as nat) < rest@.len());
                    }
                }
            }
        }
        *self = fresh;
    }

    /// Stores `value` under `key`, replacing any value it had.  Grows the
    /// table first when it is empty or three quarters full.
    pub fn insert(&mut self, key: u64, value: V)
        requires
            old(self).wf(),
            old(self)@.len() < usize::MAX,
        ensures
            final(self).wf(),
            final(self)@ == old(self)@.insert(key, value),
    {
        if self.buckets.len() == 0 || self.size >= self.buckets.len() / 4 * 3 {
            self.resize();
        }
        let hash = self.hash(&key);
        self.insert_entry(key, value, hash);
    }

    /// The value stored under `key`, if any.
    pub fn get(&self, key: &u64) -> (r: Option<&V>)
        requires
            self.wf(),
        ensures
            r == (if self@.contains_key(*key) {
                Some(&self@[*key])
            } else {
                None
            }),
    {
        if self.buckets.len() == 0 {
            return None;
        }
        let hash = self.hash(key);
        let index = (hash as usize) % self.buckets.len();
        let bucket = &self.buckets[index];
        let mut i: usize = 0;
        while i < bucket.len()
            invariant
                0 <= i <= bucket@.len(),
                bucket == self.buckets@[index as int],
                index < self.buckets@.len(),
                index == bucket_of(*key, self.buckets@.len()),
                self.wf(),
                forall|j: int| 0 <= j < i ==> bucket@[j].key != *key,
            decreases bucket@.len() - i,
        {
            proof {
                assert(layout_ok(self.buckets@, self@));
            }
            if bucket[i].key == *key {
                assert(self.buckets@[index as int]@[i as int].key == *key);
                assert(entries_ok(self.buckets@, self@));
                return Some(&bucket[i].value);
            }
            i = i + 1;
        }
        None
    }
}

/// An iterator over the pairs of a `HashMap`, in bucket order.
pub struct Iter<'a, V> {
    buckets: &'a Vec<Vec<Entry<V>>>,
    map: &'a HashMap<V>,
    bucket_index: usize,
    entry_index: usize,
}

impl<'a, V> Iter<'a, V> {
    /// The map being walked.
    pub closed spec fn map(&self) -> HashMap<V> {
        *self.map
    }

    /// How many pairs have been yielded.
    pub closed spec fn position(&self) -> int {
        flat(self.buckets@, self.bucket_index as int).len() + self.entry_index
    }

    pub closed spec fn wf(&self) -> bool {
        &&& self.map.wf()
        &&& self.buckets == &self.map.buckets
        &&& self.bucket_index <= self.buckets@.len()
        &&& self.bucket_index < self.buckets@.len() ==> self.entry_index <= self.buckets@[self.bucket_index as int]@.len()
        &&& self.bucket_index == self.buckets@.len() ==> self.entry_index == 0
    }

    /// The next pair, or `None` once every pair has been yielded.
    pub fn next(&mut self) -> (r: Option<(&'a u64, &'a V)>)
        requires
            old(self).wf(),
        ensures
            final(self).wf(),
            final(self).map() == old(self).map(),
            old(self).position() < old(self).map().pairs().len() ==> {
                let p = old(self).map().pairs()[old(self).position()];
                &&& r == Some((&p.0, &p.1))
                &&& final(self).position() == old(self).position() + 1
            },
            old(self).position() >= old(self).map().pairs().len() ==> r is None,
    {
        let ghost bk = self.buckets@;
        let ghost n = bk.len() as int;
        let ghost p0 = self.position();
        while self.bucket_index < self.buckets.len()
            invariant
                self.wf(),
                self.buckets@ == bk,
                n == bk.len(),
                self.map() == old(self).map(),
                self.position() == p0,
                p0 == old(self).position(),
                bk == old(self).map().buckets@,
                old(self).map().pairs() == flat(bk, n),
            decreases bk.len() - self.bucket_index, bk.len() + 1 - self.entry_index,
        {
            if self.entry_index < self.buckets[self.bucket_index].len() {
                let entry = &self.buckets[self.bucket_index][self.entry_index];
                proof {
                    lemma_flat_prefix(bk, self.bucket_index as int, self.entry_index as int, n);
                }
                self.entry_index = self.entry_index + 1;
                return Some((&entry.key, &entry.value));
            } else {
                proof {
                    assert(flat(bk, self.bucket_index + 1) == flat(bk, self.bucket_index as int) + bk[self.bucket_index as int]@.map_values(|e: Entry<V>| (e.key, e.value)));
                }
                self.bucket_index = self.bucket_index + 1;
                self.entry_index = 0;
            }
        }
        None
    }
}

} // verus!
