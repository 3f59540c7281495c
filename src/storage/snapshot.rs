//! Whole-state snapshots: their contents, their binary form, and the names
//! and retention of snapshot files.

use vstd::prelude::*;
use vstd::utf8::{encode_utf8, decode_utf8, valid_utf8, encode_utf8_decode_utf8, encode_utf8_valid_utf8};
use vstd::string::StringExecFns;
use crate::storage::{OpModel, StorageError, StorageResult};
use crate::storage::memory::{Entry, copy_bytes};
use crate::text::{bytes_of, chars_of, push_str, same_text};

verus! {

/// The snapshot format this library writes and the newest it reads.
pub const SNAPSHOT_FORMAT_VERSION: u32 = 1;

/// Facts recorded about a snapshot.
#[derive(Debug, Clone)]
pub struct SnapshotMetadata {
    /// Version of the binary format.
    pub format_version: u32,
    /// Version of the software that wrote it.
    pub version: String,
    /// Creation time, in seconds since the Unix epoch (UTC).
    pub timestamp: i64,
    pub total_keys: usize,
    /// Summed byte length of all keys and values.
    pub total_size: usize,
    pub checksum: Option<String>,
}

/// A complete copy of the store's contents.
pub struct Snapshot {
    pub metadata: SnapshotMetadata,
    /// Entries in the order they are restored.
    pub data: Vec<Entry>,
}

/// The writes that restoring `data` performs, in order.
pub open spec fn restore_ops(data: Seq<Entry>) -> Seq<OpModel> {
    data.map_values(|e: Entry| OpModel::Put { key: e.key@, value: e.value@ })
}

/// What a snapshot holds, as plain values.
pub struct SnapshotView {
    pub format_version: u32,
    pub version: Seq<char>,
    pub timestamp: i64,
    pub total_keys: usize,
    pub total_size: usize,
    pub checksum: Option<Seq<char>>,
    pub data: Seq<(Seq<char>, Seq<u8>)>,
}

impl View for Snapshot {
    type V = SnapshotView;

    open spec fn view(&self) -> SnapshotView {
        SnapshotView {
            format_version: self.metadata.format_version,
            version: self.metadata.version@,
            timestamp: self.metadata.timestamp,
            total_keys: self.metadata.total_keys,
            total_size: self.metadata.total_size,
            checksum: match self.metadata.checksum {
                Some(c) => Some(c@),
                None => None,
            },
            data: self.data@.map_values(|e: Entry| (e.key@, e.value@)),
        }
    }
}

/// The eight little-endian bytes of `n`.
pub open spec fn u64_bytes(n: u64) -> Seq<u8> {
    seq![
        (n & 0xff) as u8,
        ((n >> 8u64) & 0xff) as u8,
        ((n >> 16u64) & 0xff) as u8,
        ((n >> 24u64) & 0xff) as u8,
        ((n >> 32u64) & 0xff) as u8,
        ((n >> 40u64) & 0xff) as u8,
        ((n >> 48u64) & 0xff) as u8,
        ((n >> 56u64) & 0xff) as u8,
    ]
}

/// The number whose little-endian bytes are `b[0..8]`.
pub open spec fn u64_of(b: Seq<u8>) -> u64 {
    (b[0] as u64) | ((b[1] as u64) << 8u64) | ((b[2] as u64) << 16u64) | ((b[3] as u64) << 24u64)
        | ((b[4] as u64) << 32u64) | ((b[5] as u64) << 40u64) | ((b[6] as u64) << 48u64) | ((
    b[7] as u64) << 56u64)
}

pub proof fn lemma_u64_round_trip(n: u64)
    ensures
        u64_of(u64_bytes(n)) == n,
        u64_bytes(n).len() == 8,
{
    let b = u64_bytes(n);
    let b0 = b[0];
    let b1 = b[1];
    let b2 = b[2];
    let b3 = b[3];
    let b4 = b[4];
    let b5 = b[5];
    let b6 = b[6];
    let b7 = b[7];
    assert(b0 == (n & 0xff) as u8 && b1 == ((n >> 8u64) & 0xff) as u8 && b2 == ((n >> 16u64)
        & 0xff) as u8 && b3 == ((n >> 24u64) & 0xff) as u8 && b4 == ((n >> 32u64) & 0xff) as u8
        && b5 == ((n >> 40u64) & 0xff) as u8 && b6 == ((n >> 48u64) & 0xff) as u8 && b7 == ((n
        >> 56u64) & 0xff) as u8 ==> ((b0 as u64) | ((b1 as u64) << 8u64) | ((b2 as u64) << 16u64)
        | ((b3 as u64) << 24u64) | ((b4 as u64) << 32u64) | ((b5 as u64) << 40u64) | ((b6 as u64)
        << 48u64) | ((b7 as u64) << 56u64)) == n) by (bit_vector);
}

/// A length-prefixed byte string.
pub open spec fn frame(b: Seq<u8>) -> Seq<u8> {
    u64_bytes(b.len() as u64) + b
}

/// The entries, each as a framed key then a framed value.
pub open spec fn entries_bytes(es: Seq<(Seq<char>, Seq<u8>)>) -> Seq<u8>
    decreases es.len(),
{
    if es.len() == 0 {
        Seq::empty()
    } else {
        frame(encode_utf8(es[0].0)) + frame(es[0].1) + entries_bytes(es.drop_first())
    }
}

/// The binary form of a snapshot.
pub open spec fn snapshot_bytes(v: SnapshotView) -> Seq<u8> {
    u64_bytes(v.format_version as u64) + frame(encode_utf8(v.version)) + u64_bytes(
        v.timestamp as u64,
    ) + u64_bytes(v.total_keys as u64) + u64_bytes(v.total_size as u64) + match v.checksum {
        None => seq![0u8],
        Some(c) => seq![1u8] + frame(encode_utf8(c)),
    } + u64_bytes(v.data.len() as u64) + entries_bytes(v.data)
}

/// The number stored at `p`, where eight bytes are there.
pub open spec fn read_u64(b: Seq<u8>, p: int) -> Option<u64> {
    if 0 <= p && p + 8 <= b.len() {
        Some(u64_of(b.subrange(p, p + 8)))
    } else {
        None
    }
}

/// The framed byte string at `p` and the position after it.
pub open spec fn read_frame(b: Seq<u8>, p: int) -> Option<(Seq<u8>, int)> {
    match read_u64(b, p) {
        Some(n) => if p + 8 + n <= b.len() {
            Some((b.subrange(p + 8, p + 8 + n), p + 8 + n))
        } else {
            None
        },
        None => None,
    }
}

/// The framed UTF-8 text at `p` and the position after it.
pub open spec fn read_text(b: Seq<u8>, p: int) -> Option<(Seq<char>, int)> {
    match read_frame(b, p) {
        Some((t, q)) => if valid_utf8(t) {
            Some((decode_utf8(t), q))
        } else {
            None
        },
        None => None,
    }
}

/// `count` entries read from `p` on, and the position after them.
pub open spec fn read_entries(b: Seq<u8>, p: int, count: nat) -> Option<(Seq<(Seq<char>, Seq<u8>)>, int)>
    decreases count,
{
    if count == 0 {
        Some((Seq::empty(), p))
    } else {
        match read_text(b, p) {
            Some((k, q)) => match read_frame(b, q) {
                Some((v, r)) => match read_entries(b, r, (count - 1) as nat) {
                    Some((rest, e)) => Some((seq![(k, v)] + rest, e)),
                    None => None,
                },
                None => None,
            },
            None => None,
        }
    }
}

/// Whether `n` is a valid `usize`.
pub open spec fn fits_usize(n: u64) -> bool {
    n <= usize::MAX
}

/// The snapshot whose binary form is exactly `b`, where there is one and
/// its format is not newer than this library reads.
pub open spec fn parse_snapshot(b: Seq<u8>) -> Option<SnapshotView> {
    match read_u64(b, 0) {
        Some(fv) => if fv > SNAPSHOT_FORMAT_VERSION as u64 {
            None
        } else {
            match read_text(b, 8) {
                Some((version, p)) => match (read_u64(b, p), read_u64(b, p + 8), read_u64(b, p + 16)) {
                    (Some(ts), Some(tk), Some(tsz)) => if !fits_usize(tk) || !fits_usize(tsz) || p + 24 >= b.len() {
                        None
                    } else {
                        let flag = b[p + 24];
                        let c = if flag == 0 {
                            Some((None::<Seq<char>>, p + 25))
                        } else if flag == 1 {
                            match read_text(b, p + 25) {
                                Some((t, q)) => Some((Some(t), q)),
                                None => None,
                            }
                        } else {
                            None
                        };
                        match c {
                            Some((checksum, q)) => match read_u64(b, q) {
                                Some(count) => match read_entries(b, q + 8, count as nat) {
                                    Some((data, e)) => if e == b.len() {
                                        Some(SnapshotView {
                                            format_version: fv as u32,
                                            version,
                                            timestamp: #[verifier::truncate] (ts as i64),
                                            total_keys: tk as usize,
                                            total_size: tsz as usize,
                                            checksum,
                                            data,
                                        })
                                    } else {
                                        None
                                    },
                                    None => None,
                                },
                                None => None,
                            },
                            None => None,
                        }
                    },
                    _ => None,
                },
                None => None,
            }
        },
        None => None,
    }
}

proof fn lemma_read_u64_at(b: Seq<u8>, p: int, n: u64)
    requires
        0 <= p,
        p + 8 <= b.len(),
        b.subrange(p, p + 8) == u64_bytes(n),
    ensures
        read_u64(b, p) == Some(n),
{
    lemma_u64_round_trip(n);
}

proof fn lemma_read_frame_at(b: Seq<u8>, p: int, x: Seq<u8>)
    requires
        0 <= p,
        x.len() <= u64::MAX,
        p + 8 + x.len() <= b.len(),
        b.subrange(p, p + 8 + x.len()) == frame(x),
    ensures
        read_frame(b, p) == Some((x, p + 8 + x.len())),
{
    let f = frame(x);
    assert(b.subrange(p, p + 8) =~= f.subrange(0, 8));
    assert(f.subrange(0, 8) =~= u64_bytes(x.len() as u64));
    lemma_read_u64_at(b, p, x.len() as u64);
    assert(b.subrange(p + 8, p + 8 + x.len()) =~= f.subrange(8, 8 + x.len() as int));
    assert(f.subrange(8, 8 + x.len() as int) =~= x);
}

proof fn lemma_read_text_at(b: Seq<u8>, p: int, k: Seq<char>)
    requires
        0 <= p,
        encode_utf8(k).len() <= u64::MAX,
        p + 8 + encode_utf8(k).len() <= b.len(),
        b.subrange(p, p + 8 + encode_utf8(k).len()) == frame(encode_utf8(k)),
    ensures
        read_text(b, p) == Some((k, p + 8 + encode_utf8(k).len())),
{
    lemma_read_frame_at(b, p, encode_utf8(k));
    encode_utf8_valid_utf8(k);
    encode_utf8_decode_utf8(k);
}

/// Every framed length in the entries fits the eight-byte prefix.
pub open spec fn entries_fit(es: Seq<(Seq<char>, Seq<u8>)>) -> bool {
    forall|i: int|
        0 <= i < es.len() ==> encode_utf8((#[trigger] es[i]).0).len() <= u64::MAX && es[i].1.len()
            <= u64::MAX
}

proof fn lemma_read_entries_at(b: Seq<u8>, p: int, es: Seq<(Seq<char>, Seq<u8>)>)
    requires
        0 <= p,
        entries_fit(es),
        p + entries_bytes(es).len() <= b.len(),
        b.subrange(p, p + entries_bytes(es).len()) == entries_bytes(es),
    ensures
        read_entries(b, p, es.len()) == Some((es, p + entries_bytes(es).len())),
    decreases es.len(),
{
    if es.len() > 0 {
        let k = es[0].0;
        let v = es[0].1;
        let fk = frame(encode_utf8(k));
        let fv = frame(v);
        let rest = es.drop_first();
        let all = entries_bytes(es);
        assert(all == fk + fv + entries_bytes(rest));
        let q: int = p + fk.len() as int;
        let r: int = q + fv.len() as int;
        assert(b.subrange(p, q) =~= all.subrange(0, fk.len() as int));
        assert(all.subrange(0, fk.len() as int) =~= fk);
        lemma_read_text_at(b, p, k);
        assert(b.subrange(q, r) =~= all.subrange(fk.len() as int, (fk.len() + fv.len()) as int));
        assert(all.subrange(fk.len() as int, (fk.len() + fv.len()) as int) =~= fv);
        lemma_read_frame_at(b, q, v);
        assert(entries_fit(rest)) by {
            assert forall|i: int| 0 <= i < rest.len() implies encode_utf8((#[trigger] rest[i]).0).len()
                <= u64::MAX && rest[i].1.len() <= u64::MAX by {
                assert(rest[i] == es[i + 1]);
            }
        }
        assert(b.subrange(r, r + entries_bytes(rest).len()) =~= all.subrange(
            (fk.len() + fv.len()) as int,
            all.len() as int,
        ));
        assert(all.subrange((fk.len() + fv.len()) as int, all.len() as int) =~= entries_bytes(rest));
        lemma_read_entries_at(b, r, rest);
        assert(seq![(k, v)] + rest =~= es);
    }
}

/// The snapshots the binary form carries: a supported format version and
/// lengths that fit their eight-byte prefixes.
pub open spec fn encodable(v: SnapshotView) -> bool {
    &&& v.format_version <= SNAPSHOT_FORMAT_VERSION
    &&& encode_utf8(v.version).len() <= u64::MAX
    &&& (v.checksum matches Some(c) ==> encode_utf8(c).len() <= u64::MAX)
    &&& v.data.len() <= u64::MAX
    &&& entries_fit(v.data)
}

/// Round trip: decoding the binary form of a snapshot gives back the same
/// metadata and data.
#[verifier::rlimit(100)]
#[verifier::spinoff_prover]
pub proof fn lemma_snapshot_round_trip(v: SnapshotView)
    requires
        encodable(v),
    ensures
        parse_snapshot(snapshot_bytes(v)) == Some(v),
{
    let b = snapshot_bytes(v);
    let h0 = u64_bytes(v.format_version as u64);
    let fver = frame(encode_utf8(v.version));
    let ts = u64_bytes(v.timestamp as u64);
    let tk = u64_bytes(v.total_keys as u64);
    let tz = u64_bytes(v.total_size as u64);
    let ck: Seq<u8> = match v.checksum {
        None => seq![0u8],
        Some(c) => seq![1u8] + frame(encode_utf8(c)),
    };
    let cnt = u64_bytes(v.data.len() as u64);
    let eb = entries_bytes(v.data);
    assert(b =~= h0 + fver + ts + tk + tz + ck + cnt + eb);
    lemma_u64_round_trip(v.format_version as u64);
    lemma_u64_round_trip(v.timestamp as u64);
    lemma_u64_round_trip(v.total_keys as u64);
    lemma_u64_round_trip(v.total_size as u64);
    lemma_u64_round_trip(v.data.len() as u64);
    assert(b.subrange(0, 8) =~= h0);
    lemma_read_u64_at(b, 0, v.format_version as u64);
    let p1: int = 8 + fver.len() as int;
    assert(b.subrange(8, p1) =~= fver);
    lemma_read_text_at(b, 8, v.version);
    assert(b.subrange(p1, p1 + 8) =~= ts);
    assert(b.subrange(p1 + 8, p1 + 16) =~= tk);
    assert(b.subrange(p1 + 16, p1 + 24) =~= tz);
    lemma_read_u64_at(b, p1, v.timestamp as u64);
    lemma_read_u64_at(b, p1 + 8, v.total_keys as u64);
    lemma_read_u64_at(b, p1 + 16, v.total_size as u64);
    let p2: int = p1 + 24;
    assert(b[p2] == ck[0]);
    let q: int = p2 + ck.len() as int;
    match v.checksum {
        None => {},
        Some(c) => {
            assert(b.subrange(p2 + 1, q) =~= frame(encode_utf8(c)));
            lemma_read_text_at(b, p2 + 1, c);
        },
    }
    assert(b.subrange(q, q + 8) =~= cnt);
    lemma_read_u64_at(b, q, v.data.len() as u64);
    assert(b.subrange(q + 8, b.len() as int) =~= eb);
    lemma_read_entries_at(b, q + 8, v.data);
    let t = v.timestamp;
    assert((t as u64) as i64 == t) by (bit_vector);
}

/// Relies on `String::from_utf8`: it accepts exactly the byte strings that
/// are valid UTF-8, and the string it gives holds those bytes.
#[verifier::external_body]
fn string_from_utf8(v: Vec<u8>) -> (r: Option<String>)
    ensures
        r is Some <==> valid_utf8(v@),
        r matches Some(s) ==> encode_utf8(s@) == v@,
{
    String::from_utf8(v).ok()
}

fn push_u64(out: &mut Vec<u8>, n: u64)
    ensures
        final(out)@ == old(out)@ + u64_bytes(n),
{
    out.push((n & 0xff) as u8);
    out.push(((n >> 8u64) & 0xff) as u8);
    out.push(((n >> 16u64) & 0xff) as u8);
    out.push(((n >> 24u64) & 0xff) as u8);
    out.push(((n >> 32u64) & 0xff) as u8);
    out.push(((n >> 40u64) & 0xff) as u8);
    out.push(((n >> 48u64) & 0xff) as u8);
    out.push(((n >> 56u64) & 0xff) as u8);
    assert(final(out)@ =~= old(out)@ + u64_bytes(n));
}

fn push_frame(out: &mut Vec<u8>, x: &Vec<u8>)
    ensures
        final(out)@ == old(out)@ + frame(x@),
        x@.len() <= u64::MAX,
{
    push_u64(out, x.len() as u64);
    let ghost mid = out@;
    let mut i: usize = 0;
    while i < x.len()
        invariant
            0 <= i <= x@.len(),
            out@ == mid + x@.subrange(0, i as int),
        decreases x@.len() - i,
    {
        out.push(x[i]);
        i += 1;
        assert(out@ =~= mid + x@.subrange(0, i as int));
    }
    assert(out@ =~= old(out)@ + frame(x@));
}

fn read_u64_exec(b: &Vec<u8>, p: usize) -> (r: Option<u64>)
    ensures
        r == read_u64(b@, p as int),
{
    if p > b.len() || b.len() - p < 8 {
        return None;
    }
    let v = (b[p] as u64) | ((b[p + 1] as u64) << 8u64) | ((b[p + 2] as u64) << 16u64) | ((b[p
        + 3] as u64) << 24u64) | ((b[p + 4] as u64) << 32u64) | ((b[p + 5] as u64) << 40u64) | ((
    b[p + 6] as u64) << 48u64) | ((b[p + 7] as u64) << 56u64);
    assert(b@.subrange(p as int, p + 8)[0] == b@[p as int]);
    assert(v == u64_of(b@.subrange(p as int, p + 8)));
    Some(v)
}

fn read_frame_exec(b: &Vec<u8>, p: usize) -> (r: Option<(Vec<u8>, usize)>)
    ensures
        match r {
            Some((x, q)) => read_frame(b@, p as int) == Some((x@, q as int)),
            None => read_frame(b@, p as int) is None,
        },
{
    let n = match read_u64_exec(b, p) {
        Some(n) => n,
        None => return None,
    };
    let blen = b.len();
    if (blen - p - 8) as u64 >= n {
        let n = n as usize;
        let start = p + 8;
        let mut x: Vec<u8> = Vec::new();
        let mut i: usize = 0;
        while i < n
            invariant
                0 <= i <= n,
                blen == b@.len(),
                start + n <= blen,
                x@ == b@.subrange(start as int, start + i),
            decreases n - i,
        {
            x.push(b[start + i]);
            i += 1;
            assert(x@ =~= b@.subrange(start as int, start + i));
        }
        Some((x, start + n))
    } else {
        None
    }
}

fn read_text_exec(b: &Vec<u8>, p: usize) -> (r: Option<(String, usize)>)
    ensures
        match r {
            Some((t, q)) => read_text(b@, p as int) == Some((t@, q as int)),
            None => read_text(b@, p as int) is None,
        },
{
    match read_frame_exec(b, p) {
        Some((x, q)) => {
            let ghost xv = x@;
            match string_from_utf8(x) {
                Some(t) => {
                    proof {
                        encode_utf8_decode_utf8(t@);
                    }
                    Some((t, q))
                },
                None => None,
            }
        },
        None => None,
    }
}

impl Snapshot {
    /// A snapshot of `data`, taken at `timestamp` by software `version`.
    pub fn new(data: Vec<Entry>, timestamp: i64, version: String) -> (r: Snapshot)
        ensures
            r.data@ == data@,
            r.metadata.format_version == SNAPSHOT_FORMAT_VERSION,
            r.metadata.version == version,
            r.metadata.timestamp == timestamp,
            r.metadata.total_keys == data@.len(),
            r.metadata.checksum is None,
            r.metadata.total_size == clamp_size(data_size(data@)),
    {
        let mut total: usize = 0;
        let mut i: usize = 0;
        while i < data.len()
            invariant
                0 <= i <= data@.len(),
                total == clamp_size(data_size(data@.subrange(0, i as int))),
            decreases data@.len() - i,
        {
            let e = &data[i];
            let add = e.key.as_str().as_bytes().len() as u128 + e.value.len() as u128;
            let sum = total as u128 + add;
            assert(data@.subrange(0, i + 1).drop_last() =~= data@.subrange(0, i as int));
            total = if sum > usize::MAX as u128 { usize::MAX } else { sum as usize };
            i += 1;
        }
        assert(data@.subrange(0, i as int) =~= data@);
        let total_keys = data.len();
        Snapshot {
            metadata: SnapshotMetadata {
                format_version: SNAPSHOT_FORMAT_VERSION,
                version,
                timestamp,
                total_keys,
                total_size: total,
                checksum: None,
            },
            data,
        }
    }

    /// The binary form of the snapshot.
    pub fn to_bytes(&self) -> (r: Vec<u8>)
        ensures
            r@ == snapshot_bytes(self@),
            self.metadata.format_version <= SNAPSHOT_FORMAT_VERSION ==> parse_snapshot(r@) == Some(
                self@,
            ),
    {
        let mut out: Vec<u8> = Vec::new();
        push_u64(&mut out, self.metadata.format_version as u64);
        push_frame(&mut out, &bytes_of(self.metadata.version.as_str()));
        push_u64(&mut out, #[verifier::truncate] (self.metadata.timestamp as u64));
        push_u64(&mut out, self.metadata.total_keys as u64);
        push_u64(&mut out, self.metadata.total_size as u64);
        match &self.metadata.checksum {
            None => {
                out.push(0u8);
            },
            Some(c) => {
                out.push(1u8);
                push_frame(&mut out, &bytes_of(c.as_str()));
            },
        }
        push_u64(&mut out, self.data.len() as u64);
        let ghost head = out@;
        let ghost dv = self@.data;
        assert(dv.subrange(0, dv.len() as int) =~= dv);
        let mut i: usize = 0;
        while i < self.data.len()
            invariant
                0 <= i <= self.data@.len(),
                dv == self@.data,
                dv.len() == self.data@.len(),
                out@ + entries_bytes(dv.subrange(i as int, dv.len() as int)) == head
                    + entries_bytes(dv),
                entries_fit(dv.subrange(0, i as int)),
            decreases self.data@.len() - i,
        {
            let e = &self.data[i];
            let ghost before = out@;
            push_frame(&mut out, &bytes_of(e.key.as_str()));
            push_frame(&mut out, &e.value);
            proof {
                let rest = dv.subrange(i as int, dv.len() as int);
                assert(rest[0] == (e.key@, e.value@));
                assert(rest.drop_first() =~= dv.subrange(i + 1, dv.len() as int));
                assert(out@ + entries_bytes(dv.subrange(i + 1, dv.len() as int)) =~= before
                    + entries_bytes(rest));
                assert forall|k: int| 0 <= k < i + 1 implies encode_utf8(
                    (#[trigger] dv.subrange(0, i + 1)[k]).0,
                ).len() <= u64::MAX && dv.subrange(0, i + 1)[k].1.len() <= u64::MAX by {
                    if k < i {
                        assert(dv.subrange(0, i + 1)[k] == dv.subrange(0, i as int)[k]);
                    }
                }
            }
            i += 1;
        }
        proof {
            assert(dv.subrange(i as int, dv.len() as int) =~= Seq::<(Seq<char>, Seq<u8>)>::empty());
            assert(out@ =~= head + entries_bytes(dv));
        }
        let ghost v = self@;
        assert(out@ =~= snapshot_bytes(v));
        proof {
            assert(dv.subrange(0, dv.len() as int) =~= dv);
            if self.metadata.format_version <= SNAPSHOT_FORMAT_VERSION {
                lemma_snapshot_round_trip(v);
            }
        }
        out
    }

    /// The snapshot whose binary form is `b`. Fails on anything else,
    /// including a payload whose format version is newer than this library
    /// reads.
    #[verifier::loop_isolation(false)]
    pub fn from_bytes(b: &Vec<u8>) -> (r: StorageResult<Snapshot>)
        ensures
            match parse_snapshot(b@) {
                Some(v) => r is Ok && r->Ok_0@ == v,
                None => r is Err,
            },
    {
        let bad = StorageError::Deserialization(String::from_str("malformed snapshot"));
        let fv = match read_u64_exec(b, 0) {
            Some(x) => x,
            None => return Err(bad),
        };
        if fv > SNAPSHOT_FORMAT_VERSION as u64 {
            return Err(StorageError::Deserialization(String::from_str("snapshot format too new")));
        }
        let (version, p) = match read_text_exec(b, 8) {
            Some(x) => x,
            None => return Err(bad),
        };
        let ts = match read_u64_exec(b, p) {
            Some(x) => x,
            None => return Err(bad),
        };
        if p > b.len() || b.len() - p < 25 {
            return Err(bad);
        }
        let tk = match read_u64_exec(b, p + 8) {
            Some(x) => x,
            None => return Err(bad),
        };
        let tsz = match read_u64_exec(b, p + 16) {
            Some(x) => x,
            None => return Err(bad),
        };
        if tk as u128 > usize::MAX as u128 || tsz as u128 > usize::MAX as u128 {
            return Err(bad);
        }
        let flag = b[p + 24];
        let (checksum, q) = if flag == 0 {
            (None, p + 25)
        } else if flag == 1 {
            match read_text_exec(b, p + 25) {
                Some((t, q)) => (Some(t), q),
                None => return Err(bad),
            }
        } else {
            return Err(bad);
        };
        let count = match read_u64_exec(b, q) {
            Some(x) => x,
            None => return Err(bad),
        };
        let ghost goal = read_entries(b@, q + 8, count as nat);
        let mut pos: usize = q + 8;
        let mut data: Vec<Entry> = Vec::new();
        let mut i: u64 = 0;
        while i < count
            invariant
                0 <= i <= count,
                goal == read_entries(b@, q + 8, count as nat),
                goal == match read_entries(b@, pos as int, (count - i) as nat) {
                    Some((rest, e)) => Some((data@.map_values(|en: Entry| (en.key@, en.value@)) + rest, e)),
                    None => None::<(Seq<(Seq<char>, Seq<u8>)>, int)>,
                },
            decreases count - i,
        {
            let ghost before = data@.map_values(|en: Entry| (en.key@, en.value@));
            let (key, p1) = match read_text_exec(b, pos) {
                Some(x) => x,
                None => return Err(bad),
            };
            let (value, p2) = match read_frame_exec(b, p1) {
                Some(x) => x,
                None => return Err(bad),
            };
            data.push(Entry { key, value });
            proof {
                assert(data@.map_values(|en: Entry| (en.key@, en.value@)) =~= before.push(
                    (data@[data@.len() - 1].key@, data@[data@.len() - 1].value@),
                ));
                match read_entries(b@, p2 as int, (count - i - 1) as nat) {
                    Some((rest, e)) => {
                        assert(seq![(data@[data@.len() - 1].key@, data@[data@.len() - 1].value@)]
                            + rest == read_entries(b@, pos as int, (count - i) as nat)->Some_0.0);
                        assert(before + (seq![(data@[data@.len() - 1].key@, data@[data@.len() - 1].value@)]
                            + rest) =~= data@.map_values(|en: Entry| (en.key@, en.value@)) + rest);
                    },
                    None => {},
                }
            }
            pos = p2;
            i += 1;
        }
        if pos != b.len() {
            return Err(bad);
        }
        let snap = Snapshot {
            metadata: SnapshotMetadata {
                format_version: fv as u32,
                version,
                timestamp: #[verifier::truncate] (ts as i64),
                total_keys: tk as usize,
                total_size: tsz as usize,
                checksum,
            },
            data,
        };
        proof {
            assert(data@.map_values(|en: Entry| (en.key@, en.value@)) =~= snap@.data);
        }
        Ok(snap)
    }
}

/// Summed byte length of the keys and values of `data`.
pub open spec fn data_size(data: Seq<Entry>) -> nat
    decreases data.len(),
{
    if data.len() == 0 {
        0
    } else {
        data_size(data.drop_last()) + encode_utf8(data.last().key@).len() + data.last().value@.len()
    }
}

/// `n` as a `usize`, or `usize::MAX` where it does not fit.
pub open spec fn clamp_size(n: nat) -> usize {
    if n > usize::MAX {
        usize::MAX
    } else {
        n as usize
    }
}

/// Number of timestamped snapshots kept after each new one.
pub const KEEP_SNAPSHOTS: usize = 5;

/// The UTC time `secs` seconds after the Unix epoch, written as
/// `YYYYMMDD-HHMMSS` by chrono.
pub uninterp spec fn stamp_of(secs: i64) -> Seq<char>;

/// The last second of year 9999, UTC, in seconds since the Unix epoch.
pub const LAST_STAMP_SECOND: i64 = 253402300799;

/// Relies on `chrono::DateTime::<Utc>::from_timestamp(secs, 0)` and its
/// `format("%Y%m%d-%H%M%S")`; `None` where chrono has no such time, which
/// happens only outside its date range, far beyond years 1970 to 9999.
#[verifier::external_body]
fn format_stamp(secs: i64) -> (r: Option<String>)
    ensures
        r matches Some(s) ==> s@ == stamp_of(secs),
        0 <= secs <= LAST_STAMP_SECOND ==> r is Some,
{
    chrono::DateTime::<chrono::Utc>::from_timestamp(secs, 0).map(
        |t| t.format("%Y%m%d-%H%M%S").to_string(),
    )
}

/// Whether a file name in the snapshot directory is a timestamped
/// snapshot: it has the extension `rdb` and is not the alias of the latest.
pub open spec fn is_snapshot_file_name(n: Seq<char>) -> bool {
    &&& n.len() > 4
    &&& n.subrange(n.len() - 4, n.len() as int) == ".rdb"@
    &&& n != "snapshot-latest.rdb"@
}

/// Whether snapshot `j` sorts before snapshot `i`: older, or equally old
/// and listed earlier.
pub open spec fn sorts_before(ts: Seq<i64>, j: int, i: int) -> bool {
    ts[j] < ts[i] || (ts[j] == ts[i] && j < i)
}

/// How many of the first `k` snapshots sort before snapshot `i`.
pub open spec fn rank_upto(ts: Seq<i64>, i: int, k: int) -> nat
    decreases k,
{
    if k <= 0 {
        0
    } else {
        rank_upto(ts, i, k - 1) + if sorts_before(ts, k - 1, i) {
            1nat
        } else {
            0nat
        }
    }
}

/// The position of snapshot `i` when all are sorted oldest first.
pub open spec fn rank(ts: Seq<i64>, i: int) -> nat {
    rank_upto(ts, i, ts.len() as int)
}

/// Manages the snapshot directory's names and retention.
#[derive(Debug, Clone)]
pub struct Snapshotter {
    snapshot_dir: String,
}

impl Snapshotter {
    pub closed spec fn dir(&self) -> Seq<char> {
        self.snapshot_dir@
    }

    pub fn new(snapshot_dir: String) -> (r: Snapshotter)
        ensures
            r.dir() == snapshot_dir@,
    {
        Snapshotter { snapshot_dir }
    }

    /// The directory that holds the snapshots.
    pub fn snapshot_dir(&self) -> (r: &String)
        ensures
            r@ == self.dir(),
    {
        &self.snapshot_dir
    }

    /// The path of `name` inside the snapshot directory.
    pub fn path_of(&self, name: &str) -> (r: String)
        ensures
            r@ == self.dir() + "/"@ + name@,
    {
        let mut s = self.snapshot_dir.clone();
        push_str(&mut s, "/");
        push_str(&mut s, name);
        s
    }

    /// The path of the alias of the newest snapshot.
    pub fn latest_path(&self) -> (r: String)
        ensures
            r@ == self.dir() + "/"@ + "snapshot-latest.rdb"@,
    {
        self.path_of("snapshot-latest.rdb")
    }

    /// The file name of a snapshot taken at `timestamp`:
    /// `snapshot-YYYYMMDD-HHMMSS.rdb`.
    pub fn file_name(timestamp: i64) -> (r: Option<String>)
        ensures
            r matches Some(n) ==> n@ == "snapshot-"@ + stamp_of(timestamp) + ".rdb"@,
            0 <= timestamp <= LAST_STAMP_SECOND ==> r is Some,
    {
        match format_stamp(timestamp) {
            Some(stamp) => {
                let mut s = String::from_str("snapshot-");
                push_str(&mut s, stamp.as_str());
                push_str(&mut s, ".rdb");
                Some(s)
            },
            None => None,
        }
    }

    /// Whether `name` is a timestamped snapshot file.
    pub fn is_snapshot_file(name: &str) -> (r: bool)
        ensures
            r == is_snapshot_file_name(name@),
    {
        let cs = chars_of(name);
        let n = cs.len();
        proof {
            reveal_strlit(".rdb");
        }
        if n <= 4 {
            return false;
        }
        let ext = cs[n - 4] == '.' && cs[n - 3] == 'r' && cs[n - 2] == 'd' && cs[n - 1] == 'b';
        proof {
            let t = name@.subrange(n - 4, n as int);
            assert(t[0] == name@[n - 4] && t[1] == name@[n - 3] && t[2] == name@[n - 2] && t[3]
                == name@[n - 1]);
            if ext {
                assert(t =~= ".rdb"@);
            }
        }
        ext && !same_text(name, "snapshot-latest.rdb")
    }

    /// The indices of the snapshots to delete so that the `keep` newest
    /// remain: those whose position, oldest first (ties by listing order),
    /// is below `timestamps.len() - keep`. Indices come in increasing order.
    pub fn retention_victims(timestamps: &Vec<i64>, keep: usize) -> (r: Vec<usize>)
        ensures
            forall|a: int, b: int| 0 <= a < b < r@.len() ==> r@[a] < r@[b],
            forall|a: int| 0 <= a < r@.len() ==> (#[trigger] r@[a]) < timestamps@.len(),
            forall|i: int|
                0 <= i < timestamps@.len() ==> (rank(timestamps@, i) + keep < timestamps@.len()
                    <==> exists|a: int| 0 <= a < r@.len() && r@[a] == i),
    {
        let n = timestamps.len();
        let mut out: Vec<usize> = Vec::new();
        if keep >= n {
            proof {
                assert forall|i: int| 0 <= i < n implies !(rank(timestamps@, i) + keep < n) by {}
            }
            return out;
        }
        let cut = n - keep;
        let mut i: usize = 0;
        while i < n
            invariant
                n == timestamps@.len(),
                cut == n - keep,
                0 <= i <= n,
                forall|a: int, b: int| 0 <= a < b < out@.len() ==> out@[a] < out@[b],
                forall|a: int| 0 <= a < out@.len() ==> (#[trigger] out@[a]) < i,
                forall|x: int|
                    0 <= x < i ==> (rank(timestamps@, x) < cut <==> exists|a: int|
                        0 <= a < out@.len() && out@[a] == x),
            decreases n - i,
        {
            let mut count: usize = 0;
            let mut j: usize = 0;
            while j < n
                invariant
                    n == timestamps@.len(),
                    0 <= j <= n,
                    i < n,
                    count == rank_upto(timestamps@, i as int, j as int),
                    count <= j,
                decreases n - j,
            {
                if timestamps[j] < timestamps[i] || (timestamps[j] == timestamps[i] && j < i) {
                    count += 1;
                }
                j += 1;
            }
            let ghost before = out@;
            if count < cut {
                out.push(i);
            }
            proof {
                assert forall|x: int|
                    0 <= x < i + 1 implies (rank(timestamps@, x) < cut <==> exists|a: int|
                        0 <= a < out@.len() && out@[a] == x) by {
                    if x < i {
                        if exists|a: int| 0 <= a < before.len() && before[a] == x {
                            let a = choose|a: int| 0 <= a < before.len() && before[a] == x;
                            assert(out@[a] == x);
                        }
                        if exists|a: int| 0 <= a < out@.len() && out@[a] == x {
                            let a = choose|a: int| 0 <= a < out@.len() && out@[a] == x;
                            assert(a < before.len());
                            assert(before[a] == x);
                        }
                    } else {
                        if count < cut {
                            assert(out@[out@.len() - 1] == x);
                        } else {
                            assert forall|a: int| 0 <= a < out@.len() implies out@[a] != x by {
                                assert(before[a] < i);
                            }
                        }
                    }
                }
            }
            i += 1;
        }
        out
    }
}

} // verus!
