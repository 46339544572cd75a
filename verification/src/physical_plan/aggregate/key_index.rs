//! A hash index from byte keys to the order in which they were added.

use vstd::prelude::*;

verus! {

/// The hash of a key.
pub open spec fn key_hash(key: Seq<u8>) -> int
    decreases key.len(),
{
    if key.len() == 0 {
        7
    } else {
        (key_hash(key.drop_last()) * 31 + key.last()) % 0x1_0000_0000
    }
}

fn hash_of(key: &[u8]) -> (h: u64)
    ensures
        h == key_hash(key@),
{
    let n: usize = key.len();
    let mut h: u64 = 7;
    let mut i: usize = 0;
    assert(key@.take(0) =~= seq![]);
    while i < n
        invariant
            i <= n,
            n == key@.len(),
            h == key_hash(key@.take(i as int)),
            h < 0x1_0000_0000,
        decreases n - i,
    {
        proof {
            assert(key@.take(i + 1).drop_last() =~= key@.take(i as int));
        }
        h = (h * 31 + key[i] as u64) % 0x1_0000_0000;
        i = i + 1;
    }
    assert(key@.take(n as int) =~= key@);
    h
}

/// Byte equality, decided.
pub fn same_bytes(a: &[u8], b: &[u8]) -> (r: bool)
    ensures
        r == (a@ == b@),
{
    let n: usize = a.len();
    if n != b.len() {
        return false;
    }
    let mut i: usize = 0;
    while i < n
        invariant
            i <= n,
            n == a@.len(),
            n == b@.len(),
            forall|k: int| 0 <= k < i ==> a@[k] == b@[k],
        decreases n - i,
    {
        if a[i] != b[i] {
            return false;
        }
        i = i + 1;
    }
    assert(a@ =~= b@);
    true
}

/// Distinct keys, numbered in the order they were added.
pub struct KeyIndex {
    buckets: Vec<Vec<usize>>,
    keys: Vec<Vec<u8>>,
}

/// Whether no key occurs twice.
pub open spec fn keys_distinct(keys: Seq<Seq<u8>>) -> bool {
    forall|i: int, j: int| 0 <= i < j < keys.len() ==> #[trigger] keys[i] != #[trigger] keys[j]
}

impl KeyIndex {
    /// The keys in the order they were added.
    pub closed spec fn view(&self) -> Seq<Seq<u8>> {
        Seq::new(self.keys@.len(), |i: int| self.keys@[i]@)
    }

    spec fn slot(&self, key: Seq<u8>) -> int {
        key_hash(key) % (self.buckets@.len() as int)
    }

    pub closed spec fn wf(&self) -> bool {
        &&& self.buckets@.len() > 0
        &&& keys_distinct(self@)
        &&& forall|b: int, p: int|
            0 <= b < self.buckets@.len() && 0 <= p < self.buckets@[b]@.len() ==> (
            #[trigger] self.buckets@[b]@[p]) < self.keys@.len()
        &&& forall|i: int|
            0 <= i < self.keys@.len() ==> self.buckets@[self.slot(#[trigger] self@[i])]@.contains(
                i as usize,
            )
    }

    /// An empty index for about `expected` keys.
    pub fn new(expected: usize) -> (r: KeyIndex)
        ensures
            r.wf(),
            r@ == Seq::<Seq<u8>>::empty(),
    {
        let count: usize = if expected < 16 {
            16
        } else if expected > 65536 {
            65536
        } else {
            expected
        };
        let mut buckets: Vec<Vec<usize>> = Vec::new();
        let mut i: usize = 0;
        while i < count
            invariant
                i <= count,
                buckets@.len() == i,
                forall|b: int| 0 <= b < i ==> (#[trigger] buckets@[b])@.len() == 0,
            decreases count - i,
        {
            buckets.push(Vec::new());
            i = i + 1;
        }
        let r = KeyIndex { buckets, keys: Vec::new() };
        assert(r@ =~= Seq::<Seq<u8>>::empty());
        r
    }

    pub fn len(&self) -> (r: usize)
        ensures
            r == self@.len(),
    {
        self.keys.len()
    }

    pub fn key(&self, i: usize) -> (r: &Vec<u8>)
        requires
            i < self@.len(),
        ensures
            r@ == self@[i as int],
    {
        &self.keys[i]
    }

    /// The number of a key.
    pub fn find(&self, key: &[u8]) -> (r: Option<usize>)
        requires
            self.wf(),
        ensures
            match r {
                Some(i) => i < self@.len() && self@[i as int] == key@,
                None => !self@.contains(key@),
            },
    {
        let count: usize = self.keys.len();
        let h: u64 = hash_of(key);
        let slot: usize = (h % self.buckets.len() as u64) as usize;
        let bucket = &self.buckets[slot];
        let mut p: usize = 0;
        while p < bucket.len()
            invariant
                p <= bucket@.len(),
                self.wf(),
                slot == self.slot(key@),
                slot < self.buckets@.len(),
                bucket == self.buckets@[slot as int],
                forall|q: int|
                    0 <= q < p ==> self@[(#[trigger] bucket@[q]) as int] != key@,
            decreases bucket@.len() - p,
        {
            let i: usize = bucket[p];
            assert(self.buckets@[slot as int]@[p as int] < self.keys@.len());
            if same_bytes(self.keys[i].as_slice(), key) {
                return Some(i);
            }
            p = p + 1;
        }
        proof {
            if self@.contains(key@) {
                let i = choose|i: int| 0 <= i < self@.len() && self@[i] == key@;
                assert(self.buckets@[self.slot(self@[i])]@.contains(i as usize));
                let q = choose|q: int| 0 <= q < bucket@.len() && bucket@[q] == i as usize;
                assert(self@[bucket@[q] as int] == key@);
            }
        }
        None
    }

    /// Adds a key that is not there yet.
    pub fn insert(&mut self, key: Vec<u8>)
        requires
            old(self).wf(),
            !old(self)@.contains(key@),
        ensures
            final(self).wf(),
            final(self)@ == old(self)@.push(key@),
    {
        let h: u64 = hash_of(key.as_slice());
        let slot: usize = (h % self.buckets.len() as u64) as usize;
        let n: usize = self.keys.len();
        let ghost before = *self;
        let mut bucket: Vec<usize> = Vec::new();
        std::mem::swap(&mut bucket, &mut self.buckets[slot]);
        bucket.push(n);
        self.buckets.set(slot, bucket);
        let ghost k = key@;
        self.keys.push(key);
        proof {
            assert(self@ =~= before@.push(k));
            assert(self.buckets@.len() == before.buckets@.len());
            assert forall|i: int, j: int| 0 <= i < j < self@.len() implies #[trigger] self@[i]
                != #[trigger] self@[j] by {
                if j == n {
                    assert(before@[i] == self@[i]);
                    assert(before@.contains(before@[i]));
                } else {
                    assert(before@[i] != before@[j]);
                }
            }
            assert forall|b: int, p: int|
                0 <= b < self.buckets@.len() && 0 <= p < self.buckets@[b]@.len() implies (
            #[trigger] self.buckets@[b]@[p]) < self.keys@.len() by {
                if b == slot {
                    if p < before.buckets@[b]@.len() {
                        assert(self.buckets@[b]@[p] == before.buckets@[b]@[p]);
                    }
                } else {
                    assert(self.buckets@[b]@[p] == before.buckets@[b]@[p]);
                }
            }
            assert forall|i: int| 0 <= i < self.keys@.len() implies self.buckets@[self.slot(
                #[trigger] self@[i],
            )]@.contains(i as usize) by {
                let s = self.slot(self@[i]);
                if i == n {
                    let b = self.buckets@[slot as int]@;
                    assert(b[b.len() - 1] == n);
                } else {
                    assert(self@[i] == before@[i]);
                    assert(before.buckets@[before.slot(before@[i])]@.contains(i as usize));
                    let old_bucket = before.buckets@[s]@;
                    let p = choose|p: int| 0 <= p < old_bucket.len() && old_bucket[p] == i as usize;
                    assert(self.buckets@[s]@[p] == i as usize);
                }
            }
        }
    }
}

} // verus!
