//! The coverage bitmaps: a slot for each key in the order of first
//! observation, the bits of the current cycle and the bits gathered over all
//! cycles.

use vstd::prelude::*;
use vstd::slice::*;
use crate::decimal::{decimal, push_decimal};

verus! {

/// Number of slots in each bitmap.
pub const MAP_SIZE: usize = 65536;

/// The mathematical content of the bitmaps.
pub struct BitmapModel {
    /// The keys that have a slot; the slot of a key is its position.
    pub keys: Seq<Seq<u8>>,
    /// The bits of the current cycle.
    pub cycle: Seq<bool>,
    /// The bits gathered over all cycles.
    pub total: Seq<bool>,
    /// The number of observations that found no slot.
    pub dropped: nat,
}

/// The key of a line of a file: the file's path, a colon and the line number
/// in decimal.
pub open spec fn key_of(file: Seq<u8>, line: u32) -> Seq<u8> {
    file + seq![0x3Au8] + decimal(line as nat)
}

/// The slot of `key`, if it has one.
pub open spec fn slot_of(keys: Seq<Seq<u8>>, key: Seq<u8>) -> Option<int> {
    if keys.contains(key) {
        Some(keys.index_of(key))
    } else {
        None
    }
}

/// What holds of the bitmaps at all times: no key has two slots, there are no
/// more keys than slots, a bit of the current cycle is also set in the total,
/// and the slots that no key has are clear.
pub open spec fn valid(m: BitmapModel) -> bool {
    &&& m.keys.no_duplicates()
    &&& m.keys.len() <= MAP_SIZE
    &&& m.cycle.len() == MAP_SIZE
    &&& m.total.len() == MAP_SIZE
    &&& forall|i: int| 0 <= i < MAP_SIZE ==> (#[trigger] m.cycle[i] ==> m.total[i])
    &&& forall|i: int| m.keys.len() <= i < MAP_SIZE ==> !#[trigger] m.total[i]
    &&& m.dropped <= u64::MAX
}

/// The bitmaps before anything was observed.
pub open spec fn empty_bitmaps() -> BitmapModel {
    BitmapModel {
        keys: Seq::<Seq<u8>>::empty(),
        cycle: Seq::new(MAP_SIZE as nat, |i: int| false),
        total: Seq::new(MAP_SIZE as nat, |i: int| false),
        dropped: 0,
    }
}

/// The bitmaps after slot `i` was observed: the cycle bit is `hit`, and the
/// total bit is set if it was set or `hit` is.
pub open spec fn marked(m: BitmapModel, i: int, hit: bool) -> BitmapModel {
    BitmapModel { cycle: m.cycle.update(i, hit), total: m.total.update(i, m.total[i] || hit), ..m }
}

/// The bitmaps after `key` was observed. A key that has a slot keeps it. A new
/// key takes the next slot while one is free; when none is, the observation
/// is counted as dropped and changes nothing else.
pub open spec fn observed(m: BitmapModel, key: Seq<u8>, hit: bool) -> BitmapModel {
    match slot_of(m.keys, key) {
        Some(i) => marked(m, i, hit),
        None => if m.keys.len() < MAP_SIZE {
            marked(BitmapModel { keys: m.keys.push(key), ..m }, m.keys.len() as int, hit)
        } else {
            BitmapModel {
                dropped: if m.dropped < u64::MAX {
                    m.dropped + 1
                } else {
                    m.dropped
                },
                ..m
            }
        },
    }
}

/// The bitmaps at the start of a new cycle: the cycle bits are clear, all
/// else is kept.
pub open spec fn cleared(m: BitmapModel) -> BitmapModel {
    BitmapModel { cycle: Seq::new(MAP_SIZE as nat, |i: int| false), ..m }
}

/// With no key twice, the slot of a key is the position where it stands.
pub proof fn lemma_slot_of(keys: Seq<Seq<u8>>, key: Seq<u8>, i: int)
    requires
        keys.no_duplicates(),
        0 <= i < keys.len(),
        keys[i] == key,
    ensures
        slot_of(keys, key) == Some(i),
{
    assert(keys.contains(key));
    let j = keys.index_of(key);
    assert(0 <= j < keys.len() && keys[j] == key);
}

/// Observing a key keeps the bitmaps valid.
pub proof fn lemma_observed_valid(m: BitmapModel, key: Seq<u8>, hit: bool)
    requires
        valid(m),
    ensures
        valid(observed(m, key, hit)),
{
    let after = observed(m, key, hit);
    match slot_of(m.keys, key) {
        Some(i) => {
            assert(0 <= i < m.keys.len());
        },
        None => {
            if m.keys.len() < MAP_SIZE {
                let keys = m.keys.push(key);
                assert forall|a: int, b: int|
                    (0 <= a < keys.len() && 0 <= b < keys.len() && a != b) implies keys[a]
                    != keys[b] by {
                    if a == m.keys.len() {
                        assert(m.keys[b] != key);
                    } else if b == m.keys.len() {
                        assert(m.keys[a] != key);
                    }
                }
            }
        },
    }
}

/// Number of chains in the index of keys.
const BUCKETS: usize = 65536;

/// The chain that a key belongs to.
spec fn bucket_of(key: Seq<u8>) -> int
    decreases key.len(),
{
    if key.len() == 0 {
        0
    } else {
        (bucket_of(key.drop_last()) * 31 + key.last() as int) % 65536
    }
}

/// Whether `slot` is met on the chain that starts at `start`. A link is zero
/// at the end of a chain and one more than the next slot otherwise; every
/// link points to an older slot.
spec fn in_chain(links: Seq<usize>, start: usize, slot: int) -> bool
    decreases start,
{
    if start == 0 {
        false
    } else {
        let s = (start - 1) as usize;
        s == slot || (s < links.len() && links[s as int] <= s && in_chain(
            links,
            links[s as int],
            slot,
        ))
    }
}

/// The index finds every key: each chain holds keys of its own bucket only,
/// and every slot is met on the chain of its key.
spec fn index_ok(keys: Seq<Seq<u8>>, heads: Seq<usize>, links: Seq<usize>) -> bool {
    &&& heads.len() == BUCKETS
    &&& links.len() == keys.len()
    &&& forall|b: int|
        0 <= b < BUCKETS ==> (#[trigger] heads[b]) <= keys.len() && (heads[b] != 0 ==> bucket_of(
            keys[heads[b] - 1],
        ) == b)
    &&& forall|i: int|
        0 <= i < keys.len() ==> (#[trigger] links[i]) <= i && (links[i] != 0 ==> bucket_of(
            keys[links[i] - 1],
        ) == bucket_of(keys[i]))
    &&& forall|i: int|
        0 <= i < keys.len() ==> 0 <= bucket_of(#[trigger] keys[i]) < BUCKETS && in_chain(
            links,
            heads[bucket_of(keys[i])],
            i,
        )
}

/// A chain does not depend on the links of the slots after its start.
proof fn lemma_chain_prefix(links: Seq<usize>, longer: Seq<usize>, start: usize, slot: int)
    requires
        start <= links.len() <= longer.len(),
        forall|i: int| 0 <= i < links.len() ==> links[i] == longer[i],
    ensures
        in_chain(longer, start, slot) == in_chain(links, start, slot),
    decreases start,
{
    if start != 0 {
        let s = (start - 1) as usize;
        if links[s as int] <= s {
            lemma_chain_prefix(links, longer, links[s as int], slot);
        }
    }
}

/// The coverage bitmaps of a client.
#[derive(Debug)]
pub struct CoverageBitmap {
    keys: Vec<Vec<u8>>,
    /// For each bucket, one more than the newest slot of that bucket, or zero.
    heads: Vec<usize>,
    /// For each slot, one more than the next older slot of its bucket, or zero.
    links: Vec<usize>,
    cycle: Vec<bool>,
    total: Vec<bool>,
    dropped: u64,
}

impl View for CoverageBitmap {
    type V = BitmapModel;

    closed spec fn view(&self) -> BitmapModel {
        BitmapModel {
            keys: Seq::new(self.keys@.len(), |i: int| self.keys@[i]@),
            cycle: self.cycle@,
            total: self.total@,
            dropped: self.dropped as nat,
        }
    }
}

/// Computes the bucket of a key.
fn bucket(key: &[u8]) -> (b: usize)
    ensures
        b == bucket_of(key@),
        b < BUCKETS,
{
    let mut h: usize = 0;
    let mut i: usize = 0;
    assert(key@.take(0) =~= Seq::<u8>::empty());
    while i < key.len()
        invariant
            i <= key@.len(),
            h < 65536,
            h == bucket_of(key@.take(i as int)),
        decreases key@.len() - i,
    {
        assert(key@.take(i + 1).drop_last() =~= key@.take(i as int));
        h = (h * 31 + key[i] as usize) % 65536;
        i = i + 1;
    }
    assert(key@.take(i as int) =~= key@);
    h
}

/// A vector of `n` zeros.
fn zeros(n: usize) -> (v: Vec<usize>)
    ensures
        v@ == Seq::new(n as nat, |i: int| 0usize),
{
    let mut v: Vec<usize> = Vec::new();
    let mut i: usize = 0;
    while i < n
        invariant
            i <= n,
            v@.len() == i,
            forall|k: int| 0 <= k < i ==> v@[k] == 0,
        decreases n - i,
    {
        v.push(0);
        i = i + 1;
    }
    assert(v@ =~= Seq::new(n as nat, |i: int| 0usize));
    v
}

/// Builds the key of a line of a file.
pub fn make_key(file: &[u8], line: u32) -> (key: Vec<u8>)
    ensures
        key@ == key_of(file@, line),
{
    let mut key: Vec<u8> = slice_to_vec(file);
    key.push(0x3Au8);
    push_decimal(&mut key, line as u64);
    assert(key@ =~= key_of(file@, line));
    key
}

/// Whether two byte strings are the same.
pub fn same_bytes(a: &[u8], b: &[u8]) -> (same: bool)
    ensures
        same == (a@ == b@),
{
    if a.len() != b.len() {
        return false;
    }
    let mut i: usize = 0;
    while i < a.len()
        invariant
            i <= a@.len(),
            a@.len() == b@.len(),
            forall|k: int| 0 <= k < i ==> a@[k] == b@[k],
        decreases a@.len() - i,
    {
        if a[i] != b[i] {
            return false;
        }
        i = i + 1;
    }
    assert(a@ =~= b@);
    true
}

/// A vector of `n` clear bits.
fn clear_bits(n: usize) -> (bits: Vec<bool>)
    ensures
        bits@ == Seq::new(n as nat, |i: int| false),
{
    let mut bits: Vec<bool> = Vec::new();
    let mut i: usize = 0;
    while i < n
        invariant
            i <= n,
            bits@.len() == i,
            forall|k: int| 0 <= k < i ==> !bits@[k],
        decreases n - i,
    {
        bits.push(false);
        i = i + 1;
    }
    assert(bits@ =~= Seq::new(n as nat, |i: int| false));
    bits
}

impl CoverageBitmap {
    /// Whether the index of keys is in order.
    pub closed spec fn indexed(&self) -> bool {
        index_ok(self@.keys, self.heads@, self.links@)
    }

    /// The invariant of the bitmaps.
    pub open spec fn wf(&self) -> bool {
        valid(self@) && self.indexed()
    }

    /// Empty bitmaps: no key has a slot and no bit is set.
    pub fn new() -> (bitmap: CoverageBitmap)
        ensures
            bitmap.wf(),
            bitmap@ == empty_bitmaps(),
    {
        let bitmap = CoverageBitmap {
            keys: Vec::new(),
            heads: zeros(BUCKETS),
            links: Vec::new(),
            cycle: clear_bits(MAP_SIZE),
            total: clear_bits(MAP_SIZE),
            dropped: 0,
        };
        assert(bitmap@.keys =~= Seq::<Seq<u8>>::empty());
        bitmap
    }

    /// The slot of `key`, if it has one.
    pub fn slot(&self, key: &[u8]) -> (slot: Option<usize>)
        requires
            self.wf(),
        ensures
            match slot_of(self@.keys, key@) {
                Some(i) => slot == Some(i as usize) && 0 <= i < self@.keys.len(),
                None => slot is None,
            },
    {
        let b = bucket(key);
        let mut cursor: usize = self.heads[b];
        while cursor != 0
            invariant
                self.wf(),
                cursor <= self.keys@.len(),
                b == bucket_of(key@),
                cursor != 0 ==> bucket_of(self@.keys[cursor - 1]) == b,
                forall|i: int|
                    0 <= i < self@.keys.len() && self@.keys[i] == key@ ==> in_chain(
                        self.links@,
                        cursor,
                        i,
                    ),
            decreases cursor,
        {
            let s: usize = cursor - 1;
            if same_bytes(self.keys[s].as_slice(), key) {
                proof {
                    assert(self@.keys[s as int] == key@);
                    lemma_slot_of(self@.keys, key@, s as int);
                }
                return Some(s);
            }
            assert(self@.keys[s as int] != key@);
            cursor = self.links[s];
        }
        proof {
            assert forall|i: int| 0 <= i < self@.keys.len() implies self@.keys[i] != key@ by {
                if self@.keys[i] == key@ {
                    assert(in_chain(self.links@, 0, i));
                }
            }
        }
        None
    }

    /// Observes `key` with the given hit state, and returns the slot of the
    /// key, if it has or gets one.
    pub fn observe(&mut self, key: &[u8], hit: bool) -> (slot: Option<usize>)
        requires
            old(self).wf(),
        ensures
            final(self).wf(),
            final(self)@ == observed(old(self)@, key@, hit),
            match slot_of(final(self)@.keys, key@) {
                Some(i) => slot == Some(i as usize),
                None => slot is None,
            },
            forall|i: int| 0 <= i < MAP_SIZE && old(self)@.total[i] ==> final(self)@.total[i],
            forall|other: Seq<u8>|
                slot_of(old(self)@.keys, other) is Some ==> #[trigger] slot_of(
                    final(self)@.keys,
                    other,
                ) == slot_of(old(self)@.keys, other),
    {
        proof {
            lemma_observed_valid(self@, key@, hit);
            lemma_observed_keeps(self@, key@, hit);
        }
        let found = self.slot(key);
        let index: usize = match found {
            Some(i) => i,
            None => {
                if self.keys.len() >= MAP_SIZE {
                    if self.dropped < u64::MAX {
                        self.dropped = self.dropped + 1;
                    }
                    assert(self@.keys =~= old(self)@.keys);
                    return None;
                }
                self.add_key(key)
            },
        };
        let seen: bool = self.total[index];
        self.cycle.set(index, hit);
        self.total.set(index, seen || hit);
        proof {
            assert(self@.keys =~= observed(old(self)@, key@, hit).keys);
            assert(self@.keys[index as int] == key@);
            lemma_slot_of(self@.keys, key@, index as int);
        }
        Some(index)
    }

    /// Gives `key` the next slot and enters it at the head of its chain.
    fn add_key(&mut self, key: &[u8]) -> (slot: usize)
        requires
            old(self).indexed(),
            old(self)@.keys.len() < MAP_SIZE,
        ensures
            final(self).indexed(),
            slot == old(self)@.keys.len(),
            final(self)@ == (BitmapModel { keys: old(self)@.keys.push(key@), ..old(self)@ }),
    {
        let b = bucket(key);
        let n: usize = self.keys.len();
        let head: usize = self.heads[b];
        let ghost keys = self@.keys;
        let ghost heads = self.heads@;
        let ghost links = self.links@;
        self.keys.push(slice_to_vec(key));
        self.links.push(head);
        self.heads.set(b, n + 1);
        proof {
            let keys2 = self@.keys;
            let heads2 = self.heads@;
            let links2 = self.links@;
            assert(keys2 =~= keys.push(key@));
            assert forall|i: int| 0 <= i < keys2.len() implies 0 <= bucket_of(
                #[trigger] keys2[i],
            ) < BUCKETS && in_chain(links2, heads2[bucket_of(keys2[i])], i) by {
                if i < n {
                    assert(keys2[i] == keys[i]);
                    let c = bucket_of(keys[i]);
                    assert(in_chain(links, heads[c], i));
                    lemma_chain_prefix(links, links2, heads[c], i);
                    if c == b {
                        assert(links2[n as int] == heads[c]);
                    }
                }
            }
            assert forall|c: int| 0 <= c < BUCKETS implies (#[trigger] heads2[c]) <= keys2.len()
                && (heads2[c] != 0 ==> bucket_of(keys2[heads2[c] - 1]) == c) by {
                if c != b {
                    assert(heads2[c] == heads[c]);
                    if heads[c] != 0 {
                        assert(keys2[heads[c] - 1] == keys[heads[c] - 1]);
                    }
                }
            }
            assert forall|i: int| 0 <= i < keys2.len() implies (#[trigger] links2[i]) <= i && (
            links2[i] != 0 ==> bucket_of(keys2[links2[i] - 1]) == bucket_of(keys2[i])) by {
                if i < n {
                    assert(links2[i] == links[i]);
                    assert(keys2[i] == keys[i]);
                    if links[i] != 0 {
                        assert(keys2[links[i] - 1] == keys[links[i] - 1]);
                    }
                } else {
                    if head != 0 {
                        assert(keys2[head - 1] == keys[head - 1]);
                    }
                }
            }
        }
        n
    }

    /// Clears the bits of the current cycle; the total and the slots stay.
    pub fn clear_cycle(&mut self)
        requires
            old(self).wf(),
        ensures
            final(self).wf(),
            final(self)@ == cleared(old(self)@),
    {
        self.cycle = clear_bits(MAP_SIZE);
        assert(self@.keys =~= old(self)@.keys);
    }

    /// The bit of slot `i` in the current cycle.
    pub fn cycle_bit(&self, i: usize) -> (bit: bool)
        requires
            self.wf(),
            i < MAP_SIZE,
        ensures
            bit == self@.cycle[i as int],
    {
        self.cycle[i]
    }

    /// The bit of slot `i` over all cycles.
    pub fn total_bit(&self, i: usize) -> (bit: bool)
        requires
            self.wf(),
            i < MAP_SIZE,
        ensures
            bit == self@.total[i as int],
    {
        self.total[i]
    }

    /// The number of keys that have a slot.
    pub fn key_count(&self) -> (n: usize)
        requires
            self.wf(),
        ensures
            n == self@.keys.len(),
    {
        self.keys.len()
    }

    /// The number of observations that found no slot; it stops counting at
    /// the largest value it can hold.
    pub fn dropped(&self) -> (n: u64)
        ensures
            n == self@.dropped,
    {
        self.dropped
    }
}

/// Observing a key clears no bit of the total and moves no key to another
/// slot.
pub proof fn lemma_observed_keeps(m: BitmapModel, key: Seq<u8>, hit: bool)
    requires
        valid(m),
    ensures
        forall|i: int| 0 <= i < MAP_SIZE && m.total[i] ==> observed(m, key, hit).total[i],
        forall|other: Seq<u8>|
            slot_of(m.keys, other) is Some ==> #[trigger] slot_of(observed(m, key, hit).keys, other)
                == slot_of(m.keys, other),
{
    let after = observed(m, key, hit);
    lemma_observed_valid(m, key, hit);
    if slot_of(m.keys, key) is Some {
        assert(0 <= slot_of(m.keys, key)->Some_0 < m.keys.len());
    }
    assert forall|other: Seq<u8>| slot_of(m.keys, other) is Some implies #[trigger] slot_of(
        after.keys,
        other,
    ) == slot_of(m.keys, other) by {
        let i = m.keys.index_of(other);
        assert(0 <= i < m.keys.len() && m.keys[i] == other);
        assert(after.keys[i] == other);
        lemma_slot_of(after.keys, other, i);
    }
}

} // verus!
