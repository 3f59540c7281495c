//! The sharded in-memory engine.
//!
//! Keys are spread over a fixed number of shards by a stable hash. Each
//! shard keeps its entries with unique keys and a byte counter of their
//! footprint; the engine keeps the sum of those counters and admits a write
//! only while that sum stays within the configured maximum.

use vstd::prelude::*;
use vstd::utf8::encode_utf8;
use crate::text::{chars_of, has_prefix, starts_with};
use crate::storage::{
    StorageConfig, StorageError, StorageResult, StorageStats, sum_of, lemma_sum_of_update,
    lemma_sum_of_bounds_term, lemma_total_footprint_lower_bound,
    Contents, ENTRY_OVERHEAD, HASH_MODULUS, footprint, key_bytes, key_hash, shard_of,
    total_footprint, lemma_total_footprint_empty, lemma_total_footprint_insert,
    lemma_total_footprint_remove, lemma_entry_within_total, OpModel, all_admitted, puts_footprint,
    lemma_writes_within_limit_admitted, apply_ops, last_on, lemma_last_operation_decides,
};

verus! {

/// One stored pair.
pub struct Entry {
    pub key: String,
    pub value: Vec<u8>,
}

/// Hash of a key's UTF-8 bytes.
pub fn hash_key(key: &str) -> (h: u64)
    ensures
        h == key_hash(encode_utf8(key@)),
        h < HASH_MODULUS,
{
    let b = key.as_bytes();
    let mut h: u64 = 0;
    let mut i: usize = 0;
    while i < b.len()
        invariant
            0 <= i <= b@.len(),
            b@ == encode_utf8(key@),
            h == key_hash(b@.subrange(0, i as int)),
            h < HASH_MODULUS,
        decreases b@.len() - i,
    {
        assert(b@.subrange(0, i + 1).drop_last() =~= b@.subrange(0, i as int));
        h = (h * 31 + b[i] as u64) % HASH_MODULUS;
        i += 1;
    }
    assert(b@.subrange(0, b@.len() as int) =~= b@);
    h
}

/// One partition of the key space. Its entries are kept in a `Vec` with
/// unique keys: vstd specifies `HashMap` only for key types that obey its
/// key model, and `String` is not among them, so a `HashMap<String, _>`
/// would leave every lookup unspecified.
struct Shard {
    entries: Vec<Entry>,
    size: usize,
    contents: Ghost<Contents>,
}

impl Shard {
    spec fn wf(&self) -> bool {
        &&& self.contents@.dom().finite()
        &&& self.contents@.len() == self.entries@.len()
        &&& forall|i: int, j: int|
            0 <= i < j < self.entries@.len() ==> (#[trigger] self.entries@[i]).key@
                != (#[trigger] self.entries@[j]).key@
        &&& forall|i: int|
            0 <= i < self.entries@.len() ==> self.contents@.contains_key(
                (#[trigger] self.entries@[i]).key@,
            ) && self.contents@[self.entries@[i].key@] == self.entries@[i].value@
        &&& forall|k: Seq<char>| #[trigger]
            self.contents@.contains_key(k) ==> exists|i: int|
                0 <= i < self.entries@.len() && (#[trigger] self.entries@[i]).key@ == k
        &&& self.size == total_footprint(self.contents@)
    }

    fn new() -> (s: Shard)
        ensures
            s.wf(),
            s.contents@ == Contents::empty(),
            s.size == 0,
    {
        proof {
            lemma_total_footprint_empty();
        }
        Shard { entries: Vec::new(), size: 0, contents: Ghost(Contents::empty()) }
    }

    fn find(&self, key: &String) -> (r: Option<usize>)
        requires
            self.wf(),
        ensures
            match r {
                Some(i) => i < self.entries@.len() && self.entries@[i as int].key@ == key@,
                None => !self.contents@.contains_key(key@),
            },
    {
        let mut i: usize = 0;
        while i < self.entries.len()
            invariant
                self.wf(),
                0 <= i <= self.entries@.len(),
                forall|j: int| 0 <= j < i ==> (#[trigger] self.entries@[j]).key@ != key@,
            decreases self.entries@.len() - i,
        {
            if self.entries[i].key == *key {
                return Some(i);
            }
            i += 1;
        }
        None
    }

    /// Appends to `out` the keys of this shard that begin with `p`.
    fn collect_prefixed(&self, p: &Vec<char>, out: &mut Vec<String>)
        requires
            self.wf(),
            forall|t: int|
                0 <= t < old(out)@.len() ==> !self.contents@.contains_key(
                    (#[trigger] old(out)@[t])@,
                ),
            forall|a: int, b: int|
                0 <= a < b < old(out)@.len() ==> (#[trigger] old(out)@[a])@ != (
                #[trigger] old(out)@[b])@,
        ensures
            old(out)@.len() <= final(out)@.len(),
            forall|t: int| 0 <= t < old(out)@.len() ==> #[trigger] final(out)@[t] == old(out)@[t],
            forall|t: int|
                old(out)@.len() <= t < final(out)@.len() ==> self.contents@.contains_key(
                    (#[trigger] final(out)@[t])@,
                ) && starts_with(final(out)@[t]@, p@),
            forall|k: Seq<char>|
                self.contents@.contains_key(k) && starts_with(k, p@) ==> exists|t: int|
                    old(out)@.len() <= t < final(out)@.len() && (#[trigger] final(out)@[t])@ == k,
            forall|a: int, b: int|
                0 <= a < b < final(out)@.len() ==> (#[trigger] final(out)@[a])@ != (
                #[trigger] final(out)@[b])@,
    {
        let ghost start = out@;
        let mut e: usize = 0;
        while e < self.entries.len()
            invariant
                self.wf(),
                0 <= e <= self.entries@.len(),
                start.len() <= out@.len(),
                forall|t: int| 0 <= t < start.len() ==> #[trigger] out@[t] == start[t],
                forall|t: int|
                    0 <= t < start.len() ==> !self.contents@.contains_key((#[trigger] start[t])@),
                forall|t: int|
                    start.len() <= t < out@.len() ==> exists|b: int|
                        0 <= b < e && (#[trigger] out@[t])@ == (#[trigger] self.entries@[b]).key@,
                forall|t: int|
                    start.len() <= t < out@.len() ==> starts_with((#[trigger] out@[t])@, p@),
                forall|b: int|
                    0 <= b < e && starts_with((#[trigger] self.entries@[b]).key@, p@) ==> exists|
                        t: int,
                    |
                        start.len() <= t < out@.len() && (#[trigger] out@[t])@
                            == self.entries@[b].key@,
                forall|a: int, b: int|
                    0 <= a < b < out@.len() ==> (#[trigger] out@[a])@ != (#[trigger] out@[b])@,
            decreases self.entries@.len() - e,
        {
            let key = &self.entries[e].key;
            let kc = chars_of(key.as_str());
            let ghost prev = out@;
            if has_prefix(&kc, p) {
                proof {
                    assert forall|t: int| 0 <= t < out@.len() implies (#[trigger] out@[t])@
                        != key@ by {
                        if t < start.len() {
                            assert(out@[t] == start[t]);
                            assert(self.contents@.contains_key(key@));
                        } else {
                            let b = choose|b: int|
                                0 <= b < e && (#[trigger] out@[t])@ == (
                                #[trigger] self.entries@[b]).key@;
                            assert(self.entries@[b].key@ != self.entries@[e as int].key@);
                        }
                    }
                }
                out.push(key.clone());
            }
            proof {
                assert forall|b: int|
                    0 <= b < e + 1 && starts_with((#[trigger] self.entries@[b]).key@, p@)
                        implies exists|t: int|
                        start.len() <= t < out@.len() && (#[trigger] out@[t])@
                            == self.entries@[b].key@ by {
                    if b == e {
                        assert(out@[out@.len() - 1]@ == self.entries@[b].key@);
                    } else {
                        let t = choose|t: int|
                            start.len() <= t < prev.len() && (#[trigger] prev[t])@
                                == self.entries@[b].key@;
                        assert(out@[t] == prev[t]);
                    }
                }
                assert forall|t: int|
                    start.len() <= t < out@.len() implies exists|b: int|
                        0 <= b < e + 1 && (#[trigger] out@[t])@ == (
                        #[trigger] self.entries@[b]).key@ by {
                    if t < prev.len() {
                        let b = choose|b: int|
                            0 <= b < e && (#[trigger] prev[t])@ == (
                            #[trigger] self.entries@[b]).key@;
                        assert(out@[t] == prev[t]);
                    } else {
                        assert(out@[t]@ == self.entries@[e as int].key@);
                    }
                }
            }
            e += 1;
        }
        proof {
            assert forall|t: int|
                start.len() <= t < out@.len() implies self.contents@.contains_key(
                    (#[trigger] out@[t])@,
                ) by {
                let b = choose|b: int|
                    0 <= b < e && (#[trigger] out@[t])@ == (#[trigger] self.entries@[b]).key@;
            }
            assert forall|k: Seq<char>|
                self.contents@.contains_key(k) && starts_with(k, p@) implies exists|t: int|
                    start.len() <= t < out@.len() && (#[trigger] out@[t])@ == k by {
                let b = choose|b: int|
                    0 <= b < self.entries@.len() && (#[trigger] self.entries@[b]).key@ == k;
                assert(starts_with(self.entries@[b].key@, p@));
            }
        }
    }

    fn put(&mut self, key: String, value: Vec<u8>) -> (old_fp: Option<usize>)
        requires
            old(self).wf(),
            old(self).size + footprint(key@, value@) <= usize::MAX,
        ensures
            final(self).wf(),
            final(self).contents@ == old(self).contents@.insert(key@, value@),
            old_fp == (if old(self).contents@.contains_key(key@) {
                Some(footprint(key@, old(self).contents@[key@]) as usize)
            } else {
                None::<usize>
            }),
            final(self).size + (if old(self).contents@.contains_key(key@) {
                footprint(key@, old(self).contents@[key@]) as int
            } else {
                0
            }) == old(self).size + footprint(key@, value@),
    {
        let ghost k = key@;
        let ghost v = value@;
        let ghost old_contents = self.contents@;
        let fp = key.as_str().as_bytes().len() + value.len() + ENTRY_OVERHEAD;
        proof {
            lemma_total_footprint_insert(old_contents, k, v);
        }
        match self.find(&key) {
            Some(i) => {
                proof {
                    lemma_entry_within_total(old_contents, k);
                }
                let old_len = self.entries[i].value.len();
                let ofp = key.as_str().as_bytes().len() + old_len + ENTRY_OVERHEAD;
                let ghost old_entries = self.entries@;
                self.entries.set(i, Entry { key, value });
                self.size = self.size - ofp + fp;
                self.contents = Ghost(old_contents.insert(k, v));
                proof {
                    assert forall|kk: Seq<char>| #[trigger]
                        self.contents@.contains_key(kk) implies exists|j: int|
                            0 <= j < self.entries@.len() && (#[trigger] self.entries@[j]).key@
                                == kk by {
                        if kk != k {
                            let j = choose|j: int|
                                0 <= j < old_entries.len() && (#[trigger] old_entries[j]).key@
                                    == kk;
                            assert(self.entries@[j].key@ == kk);
                        } else {
                            assert(self.entries@[i as int].key@ == kk);
                        }
                    }
                    assert(old_contents.contains_key(k));
                    assert(old_contents.insert(k, v).dom() =~= old_contents.dom());
                }
                Some(ofp)
            },
            None => {
                let ghost old_entries = self.entries@;
                self.entries.push(Entry { key, value });
                self.size = self.size + fp;
                self.contents = Ghost(old_contents.insert(k, v));
                proof {
                    assert forall|kk: Seq<char>| #[trigger]
                        self.contents@.contains_key(kk) implies exists|j: int|
                            0 <= j < self.entries@.len() && (#[trigger] self.entries@[j]).key@
                                == kk by {
                        if kk != k {
                            let j = choose|j: int|
                                0 <= j < old_entries.len() && (#[trigger] old_entries[j]).key@
                                    == kk;
                            assert(self.entries@[j].key@ == kk);
                        } else {
                            assert(self.entries@[old_entries.len() as int].key@ == kk);
                        }
                    }
                    assert forall|a: int, b: int|
                        0 <= a < b < self.entries@.len() implies (#[trigger] self.entries@[a]).key@
                            != (#[trigger] self.entries@[b]).key@ by {
                        if b == old_entries.len() {
                            assert(old_contents.contains_key(old_entries[a].key@));
                        }
                    }
                }
                None
            },
        }
    }

    fn remove(&mut self, key: &String) -> (removed: Option<Vec<u8>>)
        requires
            old(self).wf(),
        ensures
            final(self).wf(),
            final(self).contents@ == old(self).contents@.remove(key@),
            match removed {
                Some(v) => old(self).contents@.contains_key(key@) && v@ == old(self).contents@[key@]
                    && final(self).size + footprint(key@, v@) == old(self).size,
                None => !old(self).contents@.contains_key(key@) && *final(self) == *old(self),
            },
    {
        let ghost k = key@;
        let ghost old_contents = self.contents@;
        match self.find(key) {
            Some(i) => {
                proof {
                    lemma_total_footprint_remove(old_contents, k);
                    lemma_entry_within_total(old_contents, k);
                }
                let ghost old_entries = self.entries@;
                let e = self.entries.swap_remove(i);
                let ofp = e.key.as_str().as_bytes().len() + e.value.len() + ENTRY_OVERHEAD;
                self.size = self.size - ofp;
                self.contents = Ghost(old_contents.remove(k));
                proof {
                    let last = old_entries.len() - 1;
                    assert forall|j: int| 0 <= j < self.entries@.len() implies
                        #[trigger] self.entries@[j] == (if j == i { old_entries[last] } else {
                            old_entries[j]
                        }) by {}
                    assert forall|kk: Seq<char>| #[trigger]
                        self.contents@.contains_key(kk) implies exists|j: int|
                            0 <= j < self.entries@.len() && (#[trigger] self.entries@[j]).key@
                                == kk by {
                        let j = choose|j: int|
                            0 <= j < old_entries.len() && (#[trigger] old_entries[j]).key@ == kk;
                        if j == last {
                            assert(self.entries@[i as int].key@ == kk);
                        } else {
                            assert(self.entries@[j].key@ == kk);
                        }
                    }
                    assert forall|a: int, b: int|
                        0 <= a < b < self.entries@.len() implies (#[trigger] self.entries@[a]).key@
                            != (#[trigger] self.entries@[b]).key@ by {
                        if a == i {
                            assert(old_entries[last].key@ != old_entries[b].key@);
                        } else if b == i {
                            assert(old_entries[a].key@ != old_entries[last].key@);
                        }
                    }
                    assert forall|j: int| 0 <= j < self.entries@.len() implies
                        self.contents@.contains_key((#[trigger] self.entries@[j]).key@)
                        && self.contents@[self.entries@[j].key@] == self.entries@[j].value@ by {
                        if j == i {
                            assert(old_entries[last].key@ != k);
                        } else {
                            assert(old_entries[j].key@ != old_entries[i as int].key@);
                        }
                    }
                }
                Some(e.value)
            },
            None => {
                assert(old_contents.remove(k) =~= old_contents);
                None
            },
        }
    }
}

/// `n` as a `usize`, or `usize::MAX` where it does not fit.
pub open spec fn clamp_usize(n: nat) -> usize {
    if n > usize::MAX {
        usize::MAX
    } else {
        n as usize
    }
}

/// `keys` lists each key of `m` that begins with `p` exactly once, and
/// nothing else.
pub open spec fn is_scan_of(keys: Seq<String>, m: Contents, p: Seq<char>) -> bool {
    &&& forall|i: int|
        0 <= i < keys.len() ==> m.contains_key((#[trigger] keys[i])@) && starts_with(keys[i]@, p)
    &&& forall|k: Seq<char>|
        m.contains_key(k) && starts_with(k, p) ==> exists|i: int|
            0 <= i < keys.len() && (#[trigger] keys[i])@ == k
    &&& forall|i: int, j: int| 0 <= i < j < keys.len() ==> (#[trigger] keys[i])@ != (#[trigger] keys[j])@
}

/// `es` holds each entry of `m` exactly once, and nothing else.
pub open spec fn is_entries_of(es: Seq<Entry>, m: Contents) -> bool {
    &&& forall|j: int|
        0 <= j < es.len() ==> m.contains_key((#[trigger] es[j]).key@) && es[j].value@
            == m[es[j].key@]
    &&& forall|k: Seq<char>| m.contains_key(k) ==> exists|j: int| 0 <= j < es.len() && (#[trigger] es[j]).key@ == k
    &&& forall|a: int, b: int| 0 <= a < b < es.len() ==> (#[trigger] es[a]).key@ != (#[trigger] es[b]).key@
}

/// A copy of the bytes `v`.
pub fn copy_bytes(v: &Vec<u8>) -> (r: Vec<u8>)
    ensures
        r@ == v@,
{
    let r = v.clone();
    assert(r@ =~= v@);
    r
}

/// Counter increment that wraps at the top of the range, as an atomic
/// counter does.
pub open spec fn bump(x: u64) -> u64 {
    if x == u64::MAX {
        0
    } else {
        (x + 1) as u64
    }
}

fn bump_exec(x: u64) -> (r: u64)
    ensures
        r == bump(x),
{
    if x == u64::MAX {
        0
    } else {
        x + 1
    }
}

/// The sharded in-memory store.
pub struct MemoryEngine {
    shards: Vec<Shard>,
    shard_count: usize,
    config: StorageConfig,
    total_operations: u64,
    hit_count: u64,
    miss_count: u64,
    total_memory: usize,
    key_count: usize,
    contents: Ghost<Contents>,
}

impl View for MemoryEngine {
    type V = Contents;

    closed spec fn view(&self) -> Contents {
        self.contents@
    }
}

impl MemoryEngine {
    /// The engine's invariant: every key sits in the shard its hash picks,
    /// the engine's contents are the union of the shards' contents, and the
    /// process-wide memory counter equals both the sum of the shard counters
    /// and the summed footprint of all entries, within the limit.
    pub closed spec fn wf(&self) -> bool {
        &&& self.shards@.len() == self.shard_count
        &&& self.shard_count > 0
        &&& forall|i: int| 0 <= i < self.shards@.len() ==> (#[trigger] self.shards@[i]).wf()
        &&& forall|i: int, k: Seq<char>|
            0 <= i < self.shards@.len() && #[trigger] self.shards@[i].contents@.contains_key(k)
                ==> shard_of(k, self.shard_count as nat) == i
        &&& forall|k: Seq<char>| #[trigger]
            self.contents@.contains_key(k) <==> self.shards@[shard_of(
                k,
                self.shard_count as nat,
            ) as int].contents@.contains_key(k)
        &&& forall|k: Seq<char>| #[trigger]
            self.contents@.contains_key(k) ==> self.contents@[k] == self.shards@[shard_of(
                k,
                self.shard_count as nat,
            ) as int].contents@[k]
        &&& self.contents@.dom().finite()
        &&& self.key_count == self.contents@.len()
        &&& self.total_memory == sum_of(self.shard_sizes())
        &&& self.total_memory == total_footprint(self.contents@)
        &&& self.total_memory <= self.config.max_memory
    }

    /// The byte counter of each shard, in shard order.
    pub closed spec fn shard_sizes(&self) -> Seq<int> {
        self.shards@.map_values(|s: Shard| s.size as int)
    }

    /// The process-wide memory counter.
    pub closed spec fn memory(&self) -> nat {
        self.total_memory as nat
    }

    /// The configured limit on `memory()`.
    pub closed spec fn max_memory(&self) -> nat {
        self.config.max_memory as nat
    }

    pub closed spec fn shards_len(&self) -> nat {
        self.shard_count as nat
    }

    pub closed spec fn hits(&self) -> u64 {
        self.hit_count
    }

    pub closed spec fn misses(&self) -> u64 {
        self.miss_count
    }

    pub closed spec fn operations(&self) -> u64 {
        self.total_operations
    }

    /// Whether writing `k -> v` passes the admission check.
    pub open spec fn admits(&self, k: Seq<char>, v: Seq<u8>) -> bool {
        self.memory() + footprint(k, v) <= self.max_memory()
    }

    /// The settings and counters other than the contents agree.
    pub open spec fn same_settings(&self, other: &MemoryEngine) -> bool {
        &&& self.max_memory() == other.max_memory()
        &&& self.shards_len() == other.shards_len()
    }

    /// Creates an empty engine with `config.shard_count` shards.
    pub fn new(config: StorageConfig) -> (e: MemoryEngine)
        requires
            config.shard_count > 0,
        ensures
            e.wf(),
            e@ == Contents::empty(),
            e.memory() == 0,
            e.max_memory() == config.max_memory,
            e.shards_len() == config.shard_count,
            e.hits() == 0,
            e.misses() == 0,
            e.operations() == 0,
    {
        let shard_count = config.shard_count;
        let mut shards: Vec<Shard> = Vec::with_capacity(shard_count);
        let mut i: usize = 0;
        while i < shard_count
            invariant
                0 <= i <= shard_count,
                shards@.len() == i,
                forall|j: int| 0 <= j < i ==> (#[trigger] shards@[j]).wf()
                    && shards@[j].contents@ == Contents::empty() && shards@[j].size == 0,
            decreases shard_count - i,
        {
            shards.push(Shard::new());
            i += 1;
        }
        let e = MemoryEngine {
            shards,
            shard_count,
            config,
            total_operations: 0,
            hit_count: 0,
            miss_count: 0,
            total_memory: 0,
            key_count: 0,
            contents: Ghost(Contents::empty()),
        };
        proof {
            lemma_total_footprint_empty();
            lemma_sum_of_zero(e.shard_sizes());
        }
        e
    }

    fn shard_index(&self, key: &str) -> (i: usize)
        requires
            self.wf(),
        ensures
            i == shard_of(key@, self.shard_count as nat),
            i < self.shards@.len(),
    {
        let h = hash_key(key);
        (h % (self.shard_count as u64)) as usize
    }

    /// The value stored under `key`, counting a hit or a miss.
    pub fn get(&mut self, key: &str) -> (r: StorageResult<Option<Vec<u8>>>)
        requires
            old(self).wf(),
        ensures
            final(self).wf(),
            final(self)@ == old(self)@,
            final(self).memory() == old(self).memory(),
            final(self).same_settings(old(self)),
            final(self).operations() == bump(old(self).operations()),
            r is Ok,
            match r {
                Ok(Some(v)) => old(self)@.contains_key(key@) && v@ == old(self)@[key@],
                _ => !old(self)@.contains_key(key@),
            },
            old(self)@.contains_key(key@) ==> final(self).hits() == bump(old(self).hits())
                && final(self).misses() == old(self).misses(),
            !old(self)@.contains_key(key@) ==> final(self).misses() == bump(old(self).misses())
                && final(self).hits() == old(self).hits(),
    {
        self.total_operations = bump_exec(self.total_operations);
        let idx = self.shard_index(key);
        let k = key.to_owned();
        let shard = &self.shards[idx];
        match shard.find(&k) {
            Some(i) => {
                self.hit_count = bump_exec(self.hit_count);
                let v = self.shards[idx].entries[i].value.clone();
                proof {
                    let sh = self.shards@[idx as int];
                    assert(sh.wf());
                    assert(sh.contents@.contains_key(key@));
                    assert(self@.contains_key(key@));
                    assert(v@ =~= sh.entries@[i as int].value@);
                }
                Ok(Some(v))
            },
            None => {
                self.miss_count = bump_exec(self.miss_count);
                Ok(None)
            },
        }
    }

    /// Stores `key -> value` if the admission check passes; otherwise
    /// reports `MemoryExceeded` and changes nothing.
    pub fn set(&mut self, key: &str, value: Vec<u8>) -> (r: StorageResult<()>)
        requires
            old(self).wf(),
        ensures
            final(self).wf(),
            final(self).same_settings(old(self)),
            final(self).hits() == old(self).hits(),
            final(self).misses() == old(self).misses(),
            r is Ok <==> old(self).admits(key@, value@),
            r is Ok ==> final(self)@ == old(self)@.insert(key@, value@) && final(self).operations()
                == bump(old(self).operations()),
            r is Err ==> *final(self) == *old(self),
            r is Err ==> final(self)@ == old(self)@ && final(self).memory() == old(self).memory()
                && final(self).operations() == old(self).operations() && r
                == Err::<(), StorageError>(
                StorageError::MemoryExceeded {
                    in_use: old(self).memory() as usize,
                    requested: clamp_usize(footprint(key@, value@)),
                    limit: old(self).max_memory() as usize,
                },
            ),
            final(self).memory() == total_footprint(final(self)@),
    {
        let klen = key.as_bytes().len();
        let vlen = value.len();
        let fp: u128 = klen as u128 + vlen as u128 + ENTRY_OVERHEAD as u128;
        assert(klen == key_bytes(key@));
        assert(fp == footprint(key@, value@));
        let cur = self.total_memory;
        let limit = self.config.max_memory;
        if cur as u128 + fp > limit as u128 {
            let requested = if fp > usize::MAX as u128 {
                usize::MAX
            } else {
                fp as usize
            };
            return Err(StorageError::MemoryExceeded { in_use: cur, requested, limit });
        }
        let fp = fp as usize;
        let idx = self.shard_index(key);
        let k = key.to_owned();
        let ghost kv = key@;
        let ghost vv = value@;
        let ghost old_self = *self;
        let ghost old_sizes = self.shard_sizes();
        proof {
            assert forall|j: int| 0 <= j < old_sizes.len() implies old_sizes[j] >= 0 by {}
            lemma_sum_of_bounds_term(old_sizes, idx as int);
            assert(old_sizes[idx as int] == self.shards@[idx as int].size);
            lemma_total_footprint_insert(old_self@, kv, vv);
            assert(self.shards@[idx as int].wf());
            assert(self@.contains_key(kv) == self.shards@[idx as int].contents@.contains_key(kv));
            if self@.contains_key(kv) {
                assert(self@[kv] == self.shards@[idx as int].contents@[kv]);
                lemma_entry_within_total(old_self@, kv);
            }
        }
        let old_fp = self.shards[idx].put(k, value);
        match old_fp {
            Some(o) => {
                self.total_memory = cur - o + fp;
            },
            None => {
                self.total_memory = cur + fp;
                proof {
                    lemma_total_footprint_lower_bound(old_self@.insert(kv, vv));
                }
                self.key_count = self.key_count + 1;
            },
        }
        self.contents = Ghost(old_self@.insert(kv, vv));
        self.total_operations = bump_exec(self.total_operations);
        proof {
            let n = self.shard_count as nat;
            assert(self.shard_sizes() =~= old_sizes.update(
                idx as int,
                self.shards@[idx as int].size as int,
            ));
            lemma_sum_of_update(old_sizes, idx as int, self.shards@[idx as int].size as int);
            assert forall|i: int, kk: Seq<char>|
                0 <= i < self.shards@.len() && #[trigger] self.shards@[i].contents@.contains_key(
                    kk,
                ) implies shard_of(kk, n) == i by {
                if i != idx {
                    assert(old_self.shards@[i].contents@.contains_key(kk));
                } else if kk != kv {
                    assert(old_self.shards@[i].contents@.contains_key(kk));
                }
            }
            assert forall|kk: Seq<char>| #[trigger]
                self@.contains_key(kk) <==> self.shards@[shard_of(
                    kk,
                    n,
                ) as int].contents@.contains_key(kk) by {
                assert(old_self@.contains_key(kk) <==> old_self.shards@[shard_of(
                    kk,
                    n,
                ) as int].contents@.contains_key(kk));
            }
            assert forall|kk: Seq<char>| #[trigger]
                self@.contains_key(kk) implies self@[kk] == self.shards@[shard_of(
                    kk,
                    n,
                ) as int].contents@[kk] by {
                if kk != kv {
                    assert(old_self@.contains_key(kk));
                }
            }
            assert forall|i: int| 0 <= i < self.shards@.len() implies (
            #[trigger] self.shards@[i]).wf() by {
                if i != idx {
                    assert(old_self.shards@[i].wf());
                }
            }
        }
        Ok(())
    }

    /// Removes `key`; reports whether it was stored.
    pub fn delete(&mut self, key: &str) -> (r: StorageResult<bool>)
        requires
            old(self).wf(),
        ensures
            final(self).wf(),
            final(self).same_settings(old(self)),
            final(self).hits() == old(self).hits(),
            final(self).misses() == old(self).misses(),
            r == Ok::<bool, StorageError>(old(self)@.contains_key(key@)),
            final(self)@ == old(self)@.remove(key@),
            final(self).operations() == (if old(self)@.contains_key(key@) {
                bump(old(self).operations())
            } else {
                old(self).operations()
            }),
            final(self).memory() == total_footprint(final(self)@),
    {
        let idx = self.shard_index(key);
        let k = key.to_owned();
        let ghost kv = key@;
        let ghost old_self = *self;
        let ghost old_sizes = self.shard_sizes();
        proof {
            assert(self.shards@[idx as int].wf());
            assert(self@.contains_key(kv) == self.shards@[idx as int].contents@.contains_key(kv));
            if self@.contains_key(kv) {
                assert(self@[kv] == self.shards@[idx as int].contents@[kv]);
                lemma_total_footprint_remove(old_self@, kv);
            } else {
                assert(old_self@.remove(kv) =~= old_self@);
            }
        }
        let removed = self.shards[idx].remove(&k);
        match removed {
            Some(v) => {
                let ofp = key.as_bytes().len() + v.len() + ENTRY_OVERHEAD;
                self.total_memory = self.total_memory - ofp;
                self.key_count = self.key_count - 1;
                self.contents = Ghost(old_self@.remove(kv));
                self.total_operations = bump_exec(self.total_operations);
                proof {
                    let n = self.shard_count as nat;
                    assert(self.shard_sizes() =~= old_sizes.update(
                        idx as int,
                        self.shards@[idx as int].size as int,
                    ));
                    lemma_sum_of_update(old_sizes, idx as int, self.shards@[idx as int].size as int);
                    assert forall|i: int, kk: Seq<char>|
                        0 <= i < self.shards@.len()
                            && #[trigger] self.shards@[i].contents@.contains_key(
                            kk,
                        ) implies shard_of(kk, n) == i by {
                        assert(old_self.shards@[i].contents@.contains_key(kk));
                    }
                    assert forall|kk: Seq<char>| #[trigger]
                        self@.contains_key(kk) <==> self.shards@[shard_of(
                            kk,
                            n,
                        ) as int].contents@.contains_key(kk) by {
                        assert(old_self@.contains_key(kk) <==> old_self.shards@[shard_of(
                            kk,
                            n,
                        ) as int].contents@.contains_key(kk));
                    }
                    assert forall|kk: Seq<char>| #[trigger]
                        self@.contains_key(kk) implies self@[kk] == self.shards@[shard_of(
                            kk,
                            n,
                        ) as int].contents@[kk] by {
                        assert(old_self@.contains_key(kk));
                    }
                    assert forall|i: int| 0 <= i < self.shards@.len() implies (
                    #[trigger] self.shards@[i]).wf() by {
                        if i != idx {
                            assert(old_self.shards@[i].wf());
                        }
                    }
                }
                Ok(true)
            },
            None => {
                proof {
                    assert(self.shards@ =~= old_self.shards@);
                }
                Ok(false)
            },
        }
    }

    proof fn lemma_entry_in_contents(&self, s: int, b: int)
        requires
            self.wf(),
            0 <= s < self.shards@.len(),
            0 <= b < self.shards@[s].entries@.len(),
        ensures
            self@.contains_key(self.shards@[s].entries@[b].key@),
            shard_of(self.shards@[s].entries@[b].key@, self.shard_count as nat) == s,
    {
        let sh = self.shards@[s];
        assert(sh.wf());
        let k = sh.entries@[b].key@;
        assert(sh.contents@.contains_key(k));
        assert(self@.contains_key(k));
    }

    /// All stored keys that begin with `prefix`, each once, in no
    /// particular order.
    pub fn scan(&self, prefix: &str) -> (r: StorageResult<Vec<String>>)
        requires
            self.wf(),
        ensures
            r is Ok,
            is_scan_of(r->Ok_0@, self@, prefix@),
    {
        let n = Ghost(self.shard_count as nat);
        let p = chars_of(prefix);
        let mut results: Vec<String> = Vec::new();
        let mut s: usize = 0;
        while s < self.shards.len()
            invariant
                self.wf(),
                n@ == self.shard_count,
                p@ == prefix@,
                0 <= s <= self.shards@.len(),
                forall|t: int|
                    0 <= t < results@.len() ==> self@.contains_key((#[trigger] results@[t])@)
                        && starts_with(results@[t]@, prefix@) && shard_of(results@[t]@, n@) < s,
                forall|k: Seq<char>|
                    self@.contains_key(k) && starts_with(k, prefix@) && shard_of(k, n@) < s
                        ==> exists|t: int| 0 <= t < results@.len() && (#[trigger] results@[t])@ == k,
                forall|a: int, b: int|
                    0 <= a < b < results@.len() ==> (#[trigger] results@[a])@ != (
                    #[trigger] results@[b])@,
            decreases self.shards@.len() - s,
        {
            let ghost before = results@;
            proof {
                assert(self.shards@[s as int].wf());
                assert forall|t: int| 0 <= t < before.len() implies !self.shards@[
                    s as int
                ].contents@.contains_key((#[trigger] before[t])@) by {
                    if self.shards@[s as int].contents@.contains_key(before[t]@) {
                        assert(shard_of(before[t]@, n@) == s);
                    }
                }
            }
            self.shards[s].collect_prefixed(&p, &mut results);
            proof {
                let sh = self.shards@[s as int];
                assert forall|t: int| 0 <= t < results@.len() implies self@.contains_key(
                    (#[trigger] results@[t])@,
                ) && starts_with(results@[t]@, prefix@) && shard_of(results@[t]@, n@) < s + 1 by {
                    if t >= before.len() {
                        assert(sh.contents@.contains_key(results@[t]@));
                        assert(shard_of(results@[t]@, n@) == s);
                        assert(self@.contains_key(results@[t]@));
                    } else {
                        assert(results@[t] == before[t]);
                    }
                }
                assert forall|k: Seq<char>|
                    self@.contains_key(k) && starts_with(k, prefix@) && shard_of(k, n@) < s + 1
                        implies exists|t: int|
                        0 <= t < results@.len() && (#[trigger] results@[t])@ == k by {
                    if shard_of(k, n@) == s {
                        assert(sh.contents@.contains_key(k));
                    } else {
                        let t = choose|t: int| 0 <= t < before.len() && (#[trigger] before[t])@ == k;
                        assert(results@[t] == before[t]);
                    }
                }
                assert forall|a: int, b: int|
                    0 <= a < b < results@.len() implies (#[trigger] results@[a])@ != (
                    #[trigger] results@[b])@ by {
                    if b >= before.len() && a < before.len() {
                        assert(results@[a] == before[a]);
                        assert(sh.contents@.contains_key(results@[b]@));
                    } else if b < before.len() {
                        assert(results@[a] == before[a]);
                        assert(results@[b] == before[b]);
                    }
                }
            }
            s += 1;
        }
        proof {
            assert forall|k: Seq<char>| self@.contains_key(k) && starts_with(k, prefix@) implies
                exists|i: int| 0 <= i < results@.len() && (#[trigger] results@[i])@ == k by {
                assert(shard_of(k, n@) < s);
                let t = choose|t: int| 0 <= t < results@.len() && (#[trigger] results@[t])@ == k;
                assert(results@[t]@ == k);
            }
        }
        let r: StorageResult<Vec<String>> = Ok(results);
        assert(r->Ok_0@ == results@);
        r
    }

    /// Current counters of the engine.
    pub fn stats(&self) -> (r: StorageResult<StorageStats>)
        requires
            self.wf(),
        ensures
            r is Ok,
            r->Ok_0.total_keys == self@.len(),
            r->Ok_0.memory_usage == self.memory(),
            r->Ok_0.hits == self.hits(),
            r->Ok_0.misses == self.misses(),
            r->Ok_0.total_operations == self.operations(),
    {
        Ok(
            StorageStats {
                total_keys: self.key_count,
                memory_usage: self.total_memory,
                hits: self.hit_count,
                misses: self.miss_count,
                total_operations: self.total_operations,
            },
        )
    }

    /// The engine answers; it has no failure of its own.
    pub fn health_check(&self) -> (r: StorageResult<()>)
        ensures
            r is Ok,
    {
        Ok(())
    }

    /// Reads that found their key so far.
    pub fn hit_count(&self) -> (r: u64)
        ensures
            r == self.hits(),
    {
        self.hit_count
    }

    /// Reads that missed so far.
    pub fn miss_count(&self) -> (r: u64)
        ensures
            r == self.misses(),
    {
        self.miss_count
    }

    /// Counted operations so far.
    pub fn total_operations(&self) -> (r: u64)
        ensures
            r == self.operations(),
    {
        self.total_operations
    }

    /// The process-wide memory counter.
    pub fn total_memory(&self) -> (r: usize)
        ensures
            r == self.memory(),
    {
        self.total_memory
    }

    /// The byte counter of each shard, in shard order.
    pub fn shard_memory(&self) -> (r: Vec<usize>)
        requires
            self.wf(),
        ensures
            r@.len() == self.shard_sizes().len(),
            forall|i: int| 0 <= i < r@.len() ==> r@[i] == self.shard_sizes()[i],
    {
        let mut v: Vec<usize> = Vec::new();
        let mut i: usize = 0;
        while i < self.shards.len()
            invariant
                0 <= i <= self.shards@.len(),
                v@.len() == i,
                forall|j: int| 0 <= j < i ==> v@[j] == self.shard_sizes()[j],
            decreases self.shards@.len() - i,
        {
            v.push(self.shards[i].size);
            i += 1;
        }
        v
    }

    /// Number of shards.
    pub fn shard_count(&self) -> (r: usize)
        ensures
            r == self.shards_len(),
    {
        self.shard_count
    }

    /// The configured memory limit.
    pub fn memory_limit(&self) -> (r: usize)
        ensures
            r == self.max_memory(),
    {
        self.config.max_memory
    }

    /// Whether writing `key -> value` would pass the admission check.
    pub fn would_admit(&self, key: &str, value: &Vec<u8>) -> (r: bool)
        requires
            self.wf(),
        ensures
            r == self.admits(key@, value@),
    {
        let fp: u128 = key.as_bytes().len() as u128 + value.len() as u128 + ENTRY_OVERHEAD as u128;
        self.total_memory as u128 + fp <= self.config.max_memory as u128
    }

    /// The value stored under `key`, read without counting a hit or miss.
    pub fn peek(&self, key: &str) -> (r: Option<Vec<u8>>)
        requires
            self.wf(),
        ensures
            match r {
                Some(v) => self@.contains_key(key@) && v@ == self@[key@],
                None => !self@.contains_key(key@),
            },
    {
        let idx = self.shard_index(key);
        let k = key.to_owned();
        match self.shards[idx].find(&k) {
            Some(i) => {
                let v = copy_bytes(&self.shards[idx].entries[i].value);
                proof {
                    let sh = self.shards@[idx as int];
                    assert(sh.wf());
                    assert(sh.contents@.contains_key(key@));
                    assert(self@.contains_key(key@));
                }
                Some(v)
            },
            None => None,
        }
    }

    /// Every stored entry once, in no particular order; reading them counts
    /// no hit or miss.
    pub fn entries(&self) -> (r: Vec<Entry>)
        requires
            self.wf(),
        ensures
            is_entries_of(r@, self@),
    {
        let keys = match self.scan("") {
            Ok(k) => k,
            Err(_) => Vec::new(),
        };
        proof {
            reveal_strlit("");
        }
        let mut out: Vec<Entry> = Vec::new();
        let mut i: usize = 0;
        while i < keys.len()
            invariant
                self.wf(),
                is_scan_of(keys@, self@, ""@),
                ""@ == Seq::<char>::empty(),
                0 <= i <= keys@.len(),
                out@.len() == i,
                forall|j: int| 0 <= j < i ==> (#[trigger] out@[j]).key@ == keys@[j]@,
                forall|j: int| 0 <= j < i ==> self@.contains_key((#[trigger] out@[j]).key@)
                    && out@[j].value@ == self@[out@[j].key@],
            decreases keys@.len() - i,
        {
            let key = keys[i].clone();
            match self.peek(key.as_str()) {
                Some(v) => {
                    out.push(Entry { key, value: v });
                },
                None => {
                    proof {
                        assert(self@.contains_key(keys@[i as int]@));
                    }
                    out.push(Entry { key, value: Vec::new() });
                },
            }
            i += 1;
        }
        proof {
            assert forall|k: Seq<char>| self@.contains_key(k) implies exists|j: int|
                0 <= j < out@.len() && (#[trigger] out@[j]).key@ == k by {
                assert(starts_with(k, ""@)) by {
                    assert(k.subrange(0, 0) =~= Seq::<char>::empty());
                }
                let j = choose|j: int| 0 <= j < keys@.len() && (#[trigger] keys@[j])@ == k;
                assert(out@[j].key@ == k);
            }
            assert forall|a: int, b: int| 0 <= a < b < out@.len() implies (#[trigger] out@[a]).key@
                != (#[trigger] out@[b]).key@ by {
                assert(keys@[a]@ != keys@[b]@);
            }
        }
        out
    }

    /// Whether `key` is stored.
    pub fn key_exists(&self, key: &str) -> (r: StorageResult<bool>)
        requires
            self.wf(),
        ensures
            r == Ok::<bool, StorageError>(self@.contains_key(key@)),
    {
        let idx = self.shard_index(key);
        let k = key.to_owned();
        match self.shards[idx].find(&k) {
            Some(_) => Ok(true),
            None => Ok(false),
        }
    }
}

/// The memory counter equals the sum of the per-shard counters, and both
/// equal the summed footprint of all stored entries; it never exceeds the
/// limit.
pub proof fn lemma_memory_accounting(e: &MemoryEngine)
    requires
        e.wf(),
    ensures
        e@.dom().finite(),
        e.memory() == sum_of(e.shard_sizes()),
        e.memory() == total_footprint(e@),
        e.memory() <= e.max_memory(),
{
}

/// For an engine whose contents are what a history of accepted writes and
/// deletions made of an empty store, the last operation on a key decides
/// whether it is stored and with what value; a key no operation touched is
/// absent.
pub proof fn lemma_engine_history(e: &MemoryEngine, ops: Seq<OpModel>, k: Seq<char>)
    requires
        e.wf(),
        e@ == apply_ops(Contents::empty(), ops),
    ensures
        last_on(ops, k) >= 0 ==> match ops[last_on(ops, k)] {
            OpModel::Put { value, .. } => e@.contains_key(k) && e@[k] == value,
            OpModel::Delete { .. } => !e@.contains_key(k),
        },
        last_on(ops, k) < 0 ==> !e@.contains_key(k),
{
    lemma_last_operation_decides(Contents::empty(), ops, k);
}

/// On an engine whose stored footprint plus the footprints of the writes of
/// `ops` stay within its limit, every write of `ops`, applied in order, is
/// admitted.
pub proof fn lemma_engine_writes_within_limit(e: &MemoryEngine, ops: Seq<OpModel>)
    requires
        e.wf(),
        e.memory() + puts_footprint(ops) <= e.max_memory(),
    ensures
        all_admitted(e@, e.max_memory(), ops),
{
    lemma_memory_accounting(e);
    lemma_writes_within_limit_admitted(e@, e.max_memory(), ops);
}

/// A sum of zeros is zero.
proof fn lemma_sum_of_zero(s: Seq<int>)
    requires
        forall|j: int| 0 <= j < s.len() ==> s[j] == 0,
    ensures
        sum_of(s) == 0,
    decreases s.len(),
{
    if s.len() > 0 {
        lemma_sum_of_zero(s.drop_last());
    }
}

} // verus!
