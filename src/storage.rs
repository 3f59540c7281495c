//! The storage layer: the mathematical model of a store's contents, the
//! sharded in-memory engine, and the persistence subsystem around it.

pub mod aof;
pub mod manager;
pub mod memory;
pub mod recovery;
pub mod snapshot;

use vstd::prelude::*;
use vstd::utf8::encode_utf8;
use vstd::string::StringExecFns;
use crate::text::{decimal, push_decimal, push_str};

verus! {

/// Errors of the storage layer.
#[derive(Debug, Clone, PartialEq, Eq)]
pub enum StorageError {
    KeyNotFound { key: String },
    /// Admission denied: `in_use + requested` would exceed `limit`.
    MemoryExceeded { in_use: usize, requested: usize, limit: usize },
    Io(String),
    Serialization(String),
    Deserialization(String),
    Persistence(String),
}

pub type StorageResult<T> = Result<T, StorageError>;

impl StorageError {
    /// The human-readable text of the error.
    pub open spec fn message_spec(&self) -> Seq<char> {
        match self {
            StorageError::KeyNotFound { key } => "Key not found: "@ + key@,
            StorageError::MemoryExceeded { in_use, requested, limit } => "Memory limit exceeded: "@
                + decimal(*in_use as nat) + " + "@ + decimal(*requested as nat) + " > "@ + decimal(
                *limit as nat,
            ),
            StorageError::Io(m) => "I/O error: "@ + m@,
            StorageError::Serialization(m) => "Serialization error: "@ + m@,
            StorageError::Deserialization(m) => "Deserialization error: "@ + m@,
            StorageError::Persistence(m) => "Persistence error: "@ + m@,
        }
    }

    /// The human-readable text of the error.
    pub fn message(&self) -> (r: String)
        ensures
            r@ == self.message_spec(),
    {
        let mut s = String::new();
        match self {
            StorageError::KeyNotFound { key } => {
                push_str(&mut s, "Key not found: ");
                push_str(&mut s, key.as_str());
            },
            StorageError::MemoryExceeded { in_use, requested, limit } => {
                push_str(&mut s, "Memory limit exceeded: ");
                push_decimal(&mut s, *in_use as u64);
                push_str(&mut s, " + ");
                push_decimal(&mut s, *requested as u64);
                push_str(&mut s, " > ");
                push_decimal(&mut s, *limit as u64);
            },
            StorageError::Io(m) => {
                push_str(&mut s, "I/O error: ");
                push_str(&mut s, m.as_str());
            },
            StorageError::Serialization(m) => {
                push_str(&mut s, "Serialization error: ");
                push_str(&mut s, m.as_str());
            },
            StorageError::Deserialization(m) => {
                push_str(&mut s, "Deserialization error: ");
                push_str(&mut s, m.as_str());
            },
            StorageError::Persistence(m) => {
                push_str(&mut s, "Persistence error: ");
                push_str(&mut s, m.as_str());
            },
        }
        assert(s@ =~= self.message_spec());
        s
    }
}

/// Counters reported by the engine.
#[derive(Debug, Clone, PartialEq, Eq)]
pub struct StorageStats {
    pub total_keys: usize,
    pub memory_usage: usize,
    /// Reads that found their key.
    pub hits: u64,
    /// Reads that did not find their key.
    pub misses: u64,
    pub total_operations: u64,
}

/// Settings of the storage engine.
#[derive(Debug, Clone)]
pub struct StorageConfig {
    /// Limit on the summed footprint of all entries, in bytes.
    pub max_memory: usize,
    pub persistence_enabled: bool,
    pub aof_path: String,
    /// Seconds between background snapshots.
    pub snapshot_interval: u64,
    pub shard_count: usize,
}

impl Default for StorageConfig {
    fn default() -> (r: StorageConfig)
        ensures
            r.max_memory == 100 * 1024 * 1024,
            r.persistence_enabled,
            r.aof_path@ == "resplite.aof"@,
            r.snapshot_interval == 3600,
            r.shard_count == 16,
    {
        StorageConfig {
            max_memory: 100 * 1024 * 1024,
            persistence_enabled: true,
            aof_path: String::from_str("resplite.aof"),
            snapshot_interval: 3600,
            shard_count: 16,
        }
    }
}

/// Fixed per-entry overhead added to the byte lengths of key and value.
pub const ENTRY_OVERHEAD: usize = 64;

/// Modulus of the polynomial key hash that picks a key's shard.
pub const HASH_MODULUS: u64 = 1_000_000_007;

/// What a store holds: each key (as characters) maps to one value.
pub type Contents = Map<Seq<char>, Seq<u8>>;

/// Byte length of a key in its UTF-8 encoding.
pub open spec fn key_bytes(k: Seq<char>) -> nat {
    encode_utf8(k).len()
}

/// Estimated memory footprint of one entry.
pub open spec fn footprint(k: Seq<char>, v: Seq<u8>) -> nat {
    key_bytes(k) + v.len() + ENTRY_OVERHEAD as nat
}

/// The entries of a map, as a set of pairs.
pub open spec fn entry_pairs(m: Contents) -> Set<(Seq<char>, Seq<u8>)> {
    Set::new(|p: (Seq<char>, Seq<u8>)| m.contains_key(p.0) && m[p.0] == p.1)
}

pub open spec fn add_footprint() -> spec_fn(nat, (Seq<char>, Seq<u8>)) -> nat {
    |acc: nat, p: (Seq<char>, Seq<u8>)| (acc + footprint(p.0, p.1)) as nat
}

/// Sum of the footprints of all entries of `m`.
pub open spec fn total_footprint(m: Contents) -> nat {
    entry_pairs(m).fold(0nat, add_footprint())
}

/// Polynomial hash of a byte string, reduced modulo `HASH_MODULUS`.
pub open spec fn key_hash(bytes: Seq<u8>) -> nat
    decreases bytes.len(),
{
    if bytes.len() == 0 {
        0
    } else {
        ((key_hash(bytes.drop_last()) * 31 + bytes.last()) % (HASH_MODULUS as int)) as nat
    }
}

/// The shard that holds key `k` among `n` shards.
pub open spec fn shard_of(k: Seq<char>, n: nat) -> nat {
    key_hash(encode_utf8(k)) % n
}

proof fn lemma_add_footprint_commutative()
    ensures
        vstd::set::fold::is_fun_commutative(add_footprint()),
{
}

proof fn lemma_entry_pairs_finite(m: Contents)
    requires
        m.dom().finite(),
    ensures
        entry_pairs(m).finite(),
{
    let f = |k: Seq<char>| (k, m[k]);
    m.dom().lemma_map_finite(f);
    assert(entry_pairs(m) =~= m.dom().map(f)) by {
        assert forall|p: (Seq<char>, Seq<u8>)| #[trigger]
            entry_pairs(m).contains(p) implies m.dom().map(f).contains(p) by {
            assert(f(p.0) == p);
        }
    }
}

/// The empty store has no footprint.
pub proof fn lemma_total_footprint_empty()
    ensures
        total_footprint(Map::empty()) == 0,
{
    assert(entry_pairs(Map::empty()) =~= Set::empty());
    vstd::set::fold::lemma_fold_empty(0nat, add_footprint());
}

/// Removing a present key takes away exactly its entry's footprint.
pub proof fn lemma_total_footprint_remove(m: Contents, k: Seq<char>)
    requires
        m.dom().finite(),
        m.contains_key(k),
    ensures
        total_footprint(m) == total_footprint(m.remove(k)) + footprint(k, m[k]),
{
    let r = m.remove(k);
    lemma_entry_pairs_finite(r);
    assert(entry_pairs(m) =~= entry_pairs(r).insert((k, m[k])));
    lemma_add_footprint_commutative();
    vstd::set::fold::lemma_fold_insert(entry_pairs(r), 0nat, add_footprint(), (k, m[k]));
}

/// Writing `k -> v` replaces the footprint of any earlier value of `k`.
pub proof fn lemma_total_footprint_insert(m: Contents, k: Seq<char>, v: Seq<u8>)
    requires
        m.dom().finite(),
    ensures
        m.contains_key(k) ==> total_footprint(m.insert(k, v)) + footprint(k, m[k])
            == total_footprint(m) + footprint(k, v),
        !m.contains_key(k) ==> total_footprint(m.insert(k, v)) == total_footprint(m)
            + footprint(k, v),
{
    let r = m.remove(k);
    lemma_entry_pairs_finite(r);
    lemma_add_footprint_commutative();
    assert(entry_pairs(m.insert(k, v)) =~= entry_pairs(r).insert((k, v)));
    vstd::set::fold::lemma_fold_insert(entry_pairs(r), 0nat, add_footprint(), (k, v));
    if m.contains_key(k) {
        lemma_total_footprint_remove(m, k);
    } else {
        assert(r =~= m);
    }
}

/// A mutation as the log records it.
pub enum OpModel {
    Put { key: Seq<char>, value: Seq<u8> },
    Delete { key: Seq<char> },
}

impl OpModel {
    pub open spec fn key(self) -> Seq<char> {
        match self {
            OpModel::Put { key, .. } => key,
            OpModel::Delete { key } => key,
        }
    }
}

/// The effect of one mutation on the contents.
pub open spec fn apply_op(m: Contents, op: OpModel) -> Contents {
    match op {
        OpModel::Put { key, value } => m.insert(key, value),
        OpModel::Delete { key } => m.remove(key),
    }
}

/// The contents after applying `ops` in order.
pub open spec fn apply_ops(m: Contents, ops: Seq<OpModel>) -> Contents
    decreases ops.len(),
{
    if ops.len() == 0 {
        m
    } else {
        apply_op(apply_ops(m, ops.drop_last()), ops.last())
    }
}

/// Whether some operation of `ops` is on key `k`.
pub open spec fn touches(ops: Seq<OpModel>, k: Seq<char>) -> bool {
    exists|i: int| 0 <= i < ops.len() && (#[trigger] ops[i]).key() == k
}

/// The index of the last operation of `ops` on key `k`, where one exists.
pub open spec fn last_on(ops: Seq<OpModel>, k: Seq<char>) -> int
    decreases ops.len(),
{
    if ops.len() == 0 {
        -1
    } else if ops.last().key() == k {
        ops.len() - 1
    } else {
        last_on(ops.drop_last(), k)
    }
}

/// The last operation on a key decides whether it is stored and with what
/// value, whatever the contents were before; keys that no operation touches
/// keep their earlier state.
pub proof fn lemma_last_operation_decides(m: Contents, ops: Seq<OpModel>, k: Seq<char>)
    ensures
        -1 <= last_on(ops, k) < ops.len(),
        last_on(ops, k) >= 0 <==> touches(ops, k),
        last_on(ops, k) >= 0 ==> ops[last_on(ops, k)].key() == k,
        last_on(ops, k) >= 0 ==> match ops[last_on(ops, k)] {
            OpModel::Put { value, .. } => apply_ops(m, ops).contains_key(k)
                && apply_ops(m, ops)[k] == value,
            OpModel::Delete { .. } => !apply_ops(m, ops).contains_key(k),
        },
        last_on(ops, k) < 0 ==> (apply_ops(m, ops).contains_key(k) == m.contains_key(k)
            && (m.contains_key(k) ==> apply_ops(m, ops)[k] == m[k])),
    decreases ops.len(),
{
    if ops.len() > 0 {
        let init = ops.drop_last();
        lemma_last_operation_decides(m, init, k);
        if ops.last().key() != k {
            if touches(ops, k) {
                let i = choose|i: int| 0 <= i < ops.len() && (#[trigger] ops[i]).key() == k;
                assert(init[i].key() == k);
            }
            if touches(init, k) {
                let i = choose|i: int| 0 <= i < init.len() && (#[trigger] init[i]).key() == k;
                assert(ops[i].key() == k);
            }
        } else {
            assert(ops[ops.len() - 1].key() == k);
        }
    }
}

/// Applying the same operations twice gives what applying them once gave.
pub proof fn lemma_apply_ops_idempotent(m: Contents, ops: Seq<OpModel>)
    ensures
        apply_ops(apply_ops(m, ops), ops) == apply_ops(m, ops),
{
    let once = apply_ops(m, ops);
    let twice = apply_ops(once, ops);
    assert forall|k: Seq<char>| #[trigger] twice.contains_key(k) == once.contains_key(k) by {
        lemma_last_operation_decides(m, ops, k);
        lemma_last_operation_decides(once, ops, k);
    }
    assert forall|k: Seq<char>| once.contains_key(k) implies #[trigger] twice[k] == once[k] by {
        lemma_last_operation_decides(m, ops, k);
        lemma_last_operation_decides(once, ops, k);
    }
    assert(twice =~= once);
}

/// Summed footprint of the writes in `ops`.
pub open spec fn puts_footprint(ops: Seq<OpModel>) -> nat
    decreases ops.len(),
{
    if ops.len() == 0 {
        0
    } else {
        puts_footprint(ops.drop_last()) + match ops.last() {
            OpModel::Put { key, value } => footprint(key, value),
            OpModel::Delete { .. } => 0,
        }
    }
}

/// Every write of `ops`, applied in order from `m`, passes the admission
/// check against `max`.
pub open spec fn all_admitted(m: Contents, max: nat, ops: Seq<OpModel>) -> bool {
    forall|i: int|
        0 <= i < ops.len() ==> step_admitted(apply_ops(m, ops.subrange(0, i)), max, #[trigger] ops[i])
}

/// Whether `op`, applied to `m`, passes the admission check against `max`.
pub open spec fn step_admitted(m: Contents, max: nat, op: OpModel) -> bool {
    match op {
        OpModel::Put { key, value } => total_footprint(m) + footprint(key, value) <= max,
        OpModel::Delete { .. } => true,
    }
}

/// One more admitted step extends an admitted prefix.
pub proof fn lemma_admitted_extend(m: Contents, max: nat, ops: Seq<OpModel>, i: int)
    requires
        0 <= i < ops.len(),
        all_admitted(m, max, ops.subrange(0, i)),
        step_admitted(apply_ops(m, ops.subrange(0, i)), max, ops[i]),
    ensures
        all_admitted(m, max, ops.subrange(0, i + 1)),
        apply_ops(m, ops.subrange(0, i + 1)) == apply_op(apply_ops(m, ops.subrange(0, i)), ops[i]),
{
    let pre = ops.subrange(0, i);
    let next = ops.subrange(0, i + 1);
    assert(next.drop_last() =~= pre);
    assert forall|j: int| 0 <= j < next.len() implies step_admitted(
        apply_ops(m, next.subrange(0, j)),
        max,
        #[trigger] next[j],
    ) by {
        if j < i {
            assert(next.subrange(0, j) =~= pre.subrange(0, j));
            assert(pre[j] == next[j]);
        } else {
            assert(next.subrange(0, j) =~= pre);
        }
    }
}

/// A rejected step makes the whole sequence not admitted.
pub proof fn lemma_rejected_step(m: Contents, max: nat, ops: Seq<OpModel>, i: int)
    requires
        0 <= i < ops.len(),
        !step_admitted(apply_ops(m, ops.subrange(0, i)), max, ops[i]),
    ensures
        !all_admitted(m, max, ops),
{
}

proof fn lemma_apply_ops_footprint(m: Contents, ops: Seq<OpModel>)
    requires
        m.dom().finite(),
    ensures
        apply_ops(m, ops).dom().finite(),
        total_footprint(apply_ops(m, ops)) <= total_footprint(m) + puts_footprint(ops),
    decreases ops.len(),
{
    if ops.len() > 0 {
        let init = ops.drop_last();
        lemma_apply_ops_footprint(m, init);
        let before = apply_ops(m, init);
        match ops.last() {
            OpModel::Put { key, value } => {
                lemma_total_footprint_insert(before, key, value);
            },
            OpModel::Delete { key } => {
                if before.contains_key(key) {
                    lemma_total_footprint_remove(before, key);
                } else {
                    assert(before.remove(key) =~= before);
                }
            },
        }
    }
}

proof fn lemma_puts_footprint_prefix(ops: Seq<OpModel>, i: int)
    requires
        0 <= i <= ops.len(),
    ensures
        puts_footprint(ops.subrange(0, i)) <= puts_footprint(ops),
    decreases ops.len() - i,
{
    if i < ops.len() {
        lemma_puts_footprint_prefix(ops, i + 1);
        assert(ops.subrange(0, i + 1).drop_last() =~= ops.subrange(0, i));
    } else {
        assert(ops.subrange(0, i) =~= ops);
    }
}

/// When the writes of a sequence of operations fit in the limit together
/// with what is already stored, every one of them is admitted.
pub proof fn lemma_writes_within_limit_admitted(m: Contents, max: nat, ops: Seq<OpModel>)
    requires
        m.dom().finite(),
        total_footprint(m) + puts_footprint(ops) <= max,
    ensures
        all_admitted(m, max, ops),
{
    assert forall|i: int| 0 <= i < ops.len() implies step_admitted(
        apply_ops(m, ops.subrange(0, i)),
        max,
        #[trigger] ops[i],
    ) by {
        let pre = ops.subrange(0, i);
        lemma_apply_ops_footprint(m, pre);
        lemma_puts_footprint_prefix(ops, i + 1);
        assert(ops.subrange(0, i + 1).drop_last() =~= pre);
        assert(ops.subrange(0, i + 1).last() == ops[i]);
    }
}

/// Sum of a sequence of integers.
pub open spec fn sum_of(s: Seq<int>) -> int
    decreases s.len(),
{
    if s.len() == 0 {
        0
    } else {
        sum_of(s.drop_last()) + s.last()
    }
}

/// Changing one element changes the sum by the difference.
pub proof fn lemma_sum_of_update(s: Seq<int>, i: int, x: int)
    requires
        0 <= i < s.len(),
    ensures
        sum_of(s.update(i, x)) == sum_of(s) - s[i] + x,
    decreases s.len(),
{
    let u = s.update(i, x);
    if i == s.len() - 1 {
        assert(u.drop_last() =~= s.drop_last());
    } else {
        assert(u.drop_last() =~= s.drop_last().update(i, x));
        lemma_sum_of_update(s.drop_last(), i, x);
    }
}

/// A sum of non-negative terms bounds each term.
pub proof fn lemma_sum_of_bounds_term(s: Seq<int>, i: int)
    requires
        0 <= i < s.len(),
        forall|j: int| 0 <= j < s.len() ==> s[j] >= 0,
    ensures
        s[i] <= sum_of(s),
        0 <= sum_of(s),
    decreases s.len(),
{
    lemma_sum_of_nonneg(s.drop_last());
    if i < s.len() - 1 {
        lemma_sum_of_bounds_term(s.drop_last(), i);
    }
}

/// A sum of non-negative terms is non-negative.
pub proof fn lemma_sum_of_nonneg(s: Seq<int>)
    requires
        forall|j: int| 0 <= j < s.len() ==> s[j] >= 0,
    ensures
        0 <= sum_of(s),
    decreases s.len(),
{
    if s.len() > 0 {
        lemma_sum_of_nonneg(s.drop_last());
    }
}

/// Each entry costs at least the fixed overhead.
pub proof fn lemma_total_footprint_lower_bound(m: Contents)
    requires
        m.dom().finite(),
    ensures
        m.len() * ENTRY_OVERHEAD <= total_footprint(m),
    decreases m.dom().len(),
{
    if m.dom().len() == 0 {
        assert(m =~= Map::empty());
        lemma_total_footprint_empty();
    } else {
        let k = m.dom().choose();
        lemma_total_footprint_remove(m, k);
        lemma_total_footprint_lower_bound(m.remove(k));
        assert(m.remove(k).len() == m.len() - 1);
        assert(m.len() * ENTRY_OVERHEAD == (m.len() - 1) * ENTRY_OVERHEAD + ENTRY_OVERHEAD)
            by (nonlinear_arith);
    }
}

/// Every single entry fits inside the total footprint.
pub proof fn lemma_entry_within_total(m: Contents, k: Seq<char>)
    requires
        m.dom().finite(),
        m.contains_key(k),
    ensures
        footprint(k, m[k]) <= total_footprint(m),
{
    lemma_total_footprint_remove(m, k);
}

} // verus!
