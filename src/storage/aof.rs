//! The append-only log: the text form of its records, reading a whole log
//! back, and the writer's bookkeeping (what is queued, what is written, when
//! to fsync).
//!
//! A record is one line: `SET <key> <base64(value)>` or `DEL <key>`. Keys
//! hold no space, line feed or carriage return. A line that does not match
//! the grammar is skipped when the log is read.

use vstd::prelude::*;
use vstd::utf8::encode_utf8;
use crate::config::FsyncPolicy;
use crate::encoding::{
    MAX_ENCODE_INPUT, base64_of, bytes_of_base64, decode_base64, encode_base64, is_base64_char,
};
use crate::storage::{OpModel, StorageError, StorageResult};
use crate::storage::memory::Entry;
use crate::text::{chars_of, push_char, push_str};
use vstd::string::StringExecFns;

verus! {

/// A mutation recorded in the log.
#[derive(Debug, Clone, PartialEq, Eq)]
pub enum Operation {
    Put { key: String, value: Vec<u8> },
    Delete { key: String },
}

impl View for Operation {
    type V = OpModel;

    open spec fn view(&self) -> OpModel {
        match self {
            Operation::Put { key, value } => OpModel::Put { key: key@, value: value@ },
            Operation::Delete { key } => OpModel::Delete { key: key@ },
        }
    }
}

/// The views of a list of operations.
pub open spec fn ops_view(ops: Seq<Operation>) -> Seq<OpModel> {
    ops.map_values(|o: Operation| o@)
}

/// A key the log grammar can carry: non-empty, without space, line feed or
/// carriage return.
pub open spec fn is_log_key(k: Seq<char>) -> bool {
    &&& k.len() > 0
    &&& forall|i: int| 0 <= i < k.len() ==> #[trigger] k[i] != ' ' && k[i] != '\n' && k[i] != '\r'
}

/// The first index at or after `i` holding `c`, or the length.
pub open spec fn first_from(s: Seq<char>, c: char, i: int) -> int
    decreases s.len() - i,
{
    if i < 0 || i >= s.len() {
        s.len() as int
    } else if s[i] == c {
        i
    } else {
        first_from(s, c, i + 1)
    }
}

pub proof fn lemma_first_from_bounds(s: Seq<char>, c: char, i: int)
    requires
        0 <= i <= s.len(),
    ensures
        i <= first_from(s, c, i) <= s.len(),
        first_from(s, c, i) < s.len() ==> s[first_from(s, c, i)] == c,
        forall|j: int| i <= j < first_from(s, c, i) ==> s[j] != c,
    decreases s.len() - i,
{
    if i < s.len() && s[i] != c {
        lemma_first_from_bounds(s, c, i + 1);
    }
}

/// Characters other than `c` between `i` and `j` do not move the search.
pub proof fn lemma_first_from_skips(s: Seq<char>, c: char, i: int, j: int)
    requires
        0 <= i <= j <= s.len(),
        forall|t: int| i <= t < j ==> s[t] != c,
    ensures
        first_from(s, c, i) == first_from(s, c, j),
    decreases j - i,
{
    if i < j {
        lemma_first_from_skips(s, c, i + 1, j);
    }
}

pub open spec fn set_tag() -> Seq<char> {
    seq!['S', 'E', 'T', ' ']
}

pub open spec fn del_tag() -> Seq<char> {
    seq!['D', 'E', 'L', ' ']
}

/// A line without a final carriage return.
pub open spec fn strip_cr(l: Seq<char>) -> Seq<char> {
    if l.len() > 0 && l.last() == '\r' {
        l.drop_last()
    } else {
        l
    }
}

/// The operation a log line (without its line feed) records, if any.
pub open spec fn line_op(l: Seq<char>) -> Option<OpModel> {
    let t = strip_cr(l);
    if t.len() >= 4 && t.subrange(0, 4) == set_tag() {
        let j = first_from(t, ' ', 4);
        if 4 < j < t.len() {
            match bytes_of_base64(t.subrange(j + 1, t.len() as int)) {
                Some(v) => Some(OpModel::Put { key: t.subrange(4, j), value: v }),
                None => None,
            }
        } else {
            None
        }
    } else if t.len() > 4 && t.subrange(0, 4) == del_tag() && first_from(t, ' ', 4) == t.len() {
        Some(OpModel::Delete { key: t.subrange(4, t.len() as int) })
    } else {
        None
    }
}

/// The text of the record of `op`, without its line feed.
pub open spec fn record_line(op: OpModel) -> Seq<char> {
    match op {
        OpModel::Put { key, value } => set_tag() + key + seq![' '] + base64_of(value),
        OpModel::Delete { key } => del_tag() + key,
    }
}

/// The operations recorded in the lines of `s` from index `i` on.
pub open spec fn log_ops_from(s: Seq<char>, i: int) -> Seq<OpModel>
    decreases s.len() - i,
    via log_ops_from_decreases
{
    if i < 0 || i >= s.len() {
        Seq::empty()
    } else {
        let j = first_from(s, '\n', i);
        let rest = if j < s.len() {
            log_ops_from(s, j + 1)
        } else {
            Seq::empty()
        };
        match line_op(s.subrange(i, j)) {
            Some(op) => seq![op] + rest,
            None => rest,
        }
    }
}

#[via_fn]
proof fn log_ops_from_decreases(s: Seq<char>, i: int) {
    if 0 <= i < s.len() {
        lemma_first_from_bounds(s, '\n', i);
    }
}

/// The operations recorded in the log text `s`, in order; lines that do not
/// match the grammar are skipped.
pub open spec fn log_ops(s: Seq<char>) -> Seq<OpModel> {
    log_ops_from(s, 0)
}

fn find_from(cs: &Vec<char>, c: char, from: usize) -> (r: usize)
    requires
        from <= cs@.len(),
    ensures
        r == first_from(cs@, c, from as int),
{
    let mut i = from;
    while i < cs.len()
        invariant
            from <= i <= cs@.len(),
            first_from(cs@, c, from as int) == first_from(cs@, c, i as int),
        decreases cs@.len() - i,
    {
        if cs[i] == c {
            return i;
        }
        i += 1;
    }
    i
}

fn range_string(cs: &Vec<char>, a: usize, b: usize) -> (r: String)
    requires
        a <= b <= cs@.len(),
    ensures
        r@ == cs@.subrange(a as int, b as int),
{
    let mut s = String::new();
    let mut i = a;
    while i < b
        invariant
            a <= i <= b <= cs@.len(),
            s@ == cs@.subrange(a as int, i as int),
        decreases b - i,
    {
        push_char(&mut s, cs[i]);
        i += 1;
        assert(s@ =~= cs@.subrange(a as int, i as int));
    }
    s
}

fn tag_at_start(cs: &Vec<char>, n: usize, a: char, b: char, c: char) -> (r: bool)
    requires
        n <= cs@.len(),
    ensures
        r == (n >= 4 && cs@.subrange(0, 4) == seq![a, b, c, ' ']),
{
    if n >= 4 && cs[0] == a && cs[1] == b && cs[2] == c && cs[3] == ' ' {
        assert(cs@.subrange(0, 4) =~= seq![a, b, c, ' ']);
        true
    } else {
        proof {
            if n >= 4 {
                let t = cs@.subrange(0, 4);
                assert(t[0] == cs@[0] && t[1] == cs@[1] && t[2] == cs@[2] && t[3] == cs@[3]);
            }
        }
        false
    }
}

impl Operation {
    /// The key the operation is on.
    pub fn key(&self) -> (r: &String)
        ensures
            r@ == self@.key(),
    {
        match self {
            Operation::Put { key, .. } => key,
            Operation::Delete { key } => key,
        }
    }

    /// The record of this operation, ending in a line feed. Reading the
    /// record back gives this operation again, where the key is one the
    /// grammar can carry.
    pub fn to_aof_entry(&self) -> (r: StorageResult<String>)
        ensures
            r is Ok <==> match self {
                Operation::Put { value, .. } => value@.len() <= MAX_ENCODE_INPUT,
                Operation::Delete { .. } => true,
            },
            r is Ok ==> r->Ok_0@ == record_line(self@).push('\n'),
            r is Ok && is_log_key(self@.key()) ==> line_op(r->Ok_0@.drop_last()) == Some(self@),
            r is Ok && is_log_key(self@.key()) ==> good_record(self@),
    {
        let mut s = String::new();
        match self {
            Operation::Put { key, value } => {
                if value.len() > MAX_ENCODE_INPUT {
                    return Err(
                        StorageError::Serialization(String::from_str("value too large to encode")),
                    );
                }
                let b64 = encode_base64(value.as_slice());
                push_str(&mut s, "SET ");
                push_str(&mut s, key.as_str());
                push_char(&mut s, ' ');
                push_str(&mut s, b64.as_str());
                push_char(&mut s, '\n');
                proof {
                    reveal_strlit("SET ");
                    assert(s@ =~= record_line(self@).push('\n'));
                    if is_log_key(key@) {
                        let t = s@.drop_last();
                        let j = (4 + key@.len()) as int;
                        assert(t =~= set_tag() + key@ + seq![' '] + b64@);
                        assert(t.subrange(0, 4) =~= set_tag());
                        assert forall|x: int| 4 <= x < j implies t[x] != ' ' by {
                            assert(t[x] == key@[x - 4]);
                        }
                        lemma_first_from_skips(t, ' ', 4, j);
                        assert(t.subrange(4, j) =~= key@);
                        assert(t.subrange(j + 1, t.len() as int) =~= b64@);
                        if b64@.len() > 0 {
                            assert(is_base64_char(b64@[b64@.len() - 1]));
                        }
                        assert(strip_cr(t) == t);
                        assert(t == record_line(self@));
                        assert forall|x: int| 0 <= x < t.len() implies #[trigger] t[x] != '\n' by {
                            if x >= j + 1 {
                                assert(t[x] == b64@[x - j - 1]);
                                assert(is_base64_char(b64@[x - j - 1]));
                            } else if x >= 4 && x < j {
                                assert(t[x] == key@[x - 4]);
                            }
                        }
                    }
                }
            },
            Operation::Delete { key } => {
                push_str(&mut s, "DEL ");
                push_str(&mut s, key.as_str());
                push_char(&mut s, '\n');
                proof {
                    reveal_strlit("DEL ");
                    assert(s@ =~= record_line(self@).push('\n'));
                    if is_log_key(key@) {
                        let t = s@.drop_last();
                        assert(t =~= del_tag() + key@);
                        assert(t.subrange(0, 4) =~= del_tag());
                        assert forall|x: int| 4 <= x < t.len() implies t[x] != ' ' by {
                            assert(t[x] == key@[x - 4]);
                        }
                        lemma_first_from_skips(t, ' ', 4, t.len() as int);
                        assert(t.subrange(4, t.len() as int) =~= key@);
                        if key@.len() > 0 {
                            assert(t.last() == key@[key@.len() - 1]);
                        }
                        assert(strip_cr(t) == t);
                        assert(t == record_line(self@));
                        assert forall|x: int| 0 <= x < t.len() implies #[trigger] t[x] != '\n' by {
                            if x >= 4 {
                                assert(t[x] == key@[x - 4]);
                            }
                        }
                    }
                }
            },
        }
        Ok(s)
    }

    /// The operation a log line records, or an error for a line outside the
    /// grammar. A final line feed or carriage return is ignored.
    pub fn from_aof_entry(line: &str) -> (r: StorageResult<Operation>)
        ensures
            match r {
                Ok(op) => line_op(line_body(line@)) == Some(op@),
                Err(_) => line_op(line_body(line@)) is None,
            },
    {
        let mut cs = chars_of(line);
        if cs.len() > 0 && cs[cs.len() - 1] == '\n' {
            cs.pop();
        }
        assert(cs@ == line_body(line@));
        match parse_line(&cs) {
            Some(op) => Ok(op),
            None => Err(StorageError::Persistence(String::from_str("invalid log record"))),
        }
    }
}

/// A line without one final line feed.
pub open spec fn line_body(l: Seq<char>) -> Seq<char> {
    if l.len() > 0 && l.last() == '\n' {
        l.drop_last()
    } else {
        l
    }
}

fn parse_line(l: &Vec<char>) -> (r: Option<Operation>)
    ensures
        match r {
            Some(op) => line_op(l@) == Some(op@),
            None => line_op(l@) is None,
        },
{
    let mut n = l.len();
    if n > 0 && l[n - 1] == '\r' {
        n = n - 1;
    }
    let ghost t = strip_cr(l@);
    let mut cs: Vec<char> = Vec::new();
    let mut i: usize = 0;
    while i < n
        invariant
            n <= l@.len(),
            t == l@.subrange(0, n as int),
            0 <= i <= n,
            cs@ == l@.subrange(0, i as int),
        decreases n - i,
    {
        cs.push(l[i]);
        i += 1;
        assert(cs@ =~= l@.subrange(0, i as int));
    }
    assert(cs@ =~= t);
    if tag_at_start(&cs, n, 'S', 'E', 'T') {
        let j = find_from(&cs, ' ', 4);
        proof {
            lemma_first_from_bounds(cs@, ' ', 4);
        }
        if 4 < j && j < n {
            let key = range_string(&cs, 4, j);
            let text = range_string(&cs, j + 1, n);
            match decode_base64(text.as_str()) {
                Some(value) => Some(Operation::Put { key, value }),
                None => None,
            }
        } else {
            None
        }
    } else if n > 4 && tag_at_start(&cs, n, 'D', 'E', 'L') && find_from(&cs, ' ', 4) == n {
        let key = range_string(&cs, 4, n);
        Some(Operation::Delete { key })
    } else {
        None
    }
}

/// The operations recorded in the log text `text`, in order. Lines outside
/// the grammar (blank ones included) are skipped.
pub fn read_operations(text: &str) -> (r: Vec<Operation>)
    ensures
        ops_view(r@) == log_ops(text@),
{
    let cs = chars_of(text);
    let mut ops: Vec<Operation> = Vec::new();
    let mut i: usize = 0;
    while i < cs.len()
        invariant
            cs@ == text@,
            0 <= i <= cs@.len(),
            ops_view(ops@) + log_ops_from(cs@, i as int) == log_ops(cs@),
        decreases cs@.len() - i,
    {
        let j = find_from(&cs, '\n', i);
        proof {
            lemma_first_from_bounds(cs@, '\n', i as int);
        }
        let line = line_range(&cs, i, j);
        let ghost before = ops_view(ops@);
        match parse_line(&line) {
            Some(op) => {
                ops.push(op);
                assert(ops_view(ops@) =~= before.push(op@));
            },
            None => {},
        }
        if j < cs.len() {
            i = j + 1;
        } else {
            i = j;
        }
        assert(ops_view(ops@) + log_ops_from(cs@, i as int) =~= log_ops(cs@));
    }
    assert(log_ops_from(cs@, i as int) =~= Seq::<OpModel>::empty());
    assert(ops_view(ops@) =~= ops_view(ops@) + log_ops_from(cs@, i as int));
    ops
}

fn line_range(cs: &Vec<char>, a: usize, b: usize) -> (r: Vec<char>)
    requires
        a <= b <= cs@.len(),
    ensures
        r@ == cs@.subrange(a as int, b as int),
{
    let mut v: Vec<char> = Vec::new();
    let mut i = a;
    while i < b
        invariant
            a <= i <= b <= cs@.len(),
            v@ == cs@.subrange(a as int, i as int),
        decreases b - i,
    {
        v.push(cs[i]);
        i += 1;
        assert(v@ =~= cs@.subrange(a as int, i as int));
    }
    v
}

/// Whether the writer flushes and fsyncs right after writing the `j`-th
/// record it ever wrote (counting from 1).
pub open spec fn syncs_after(policy: FsyncPolicy, j: nat) -> bool {
    match policy {
        FsyncPolicy::Always => true,
        FsyncPolicy::EveryN(n) => n == 0 || j % (n as nat) == 0,
        FsyncPolicy::Never => false,
    }
}

/// Under `Always` (and `EveryN(1)`) every record is followed by an fsync,
/// so each record the writer is handed is durable once it is written.
pub proof fn lemma_always_syncs_every_record(j: nat)
    ensures
        syncs_after(FsyncPolicy::Always, j),
        syncs_after(FsyncPolicy::EveryN(1), j),
{
}

/// The byte length of the UTF-8 text of `lines`.
pub open spec fn text_bytes(lines: Seq<String>) -> nat
    decreases lines.len(),
{
    if lines.len() == 0 {
        0
    } else {
        text_bytes(lines.drop_last()) + encode_utf8(lines.last()@).len()
    }
}

/// `n`, or `u64::MAX` where it does not fit.
pub open spec fn clamp_u64(n: int) -> u64 {
    if n > u64::MAX {
        u64::MAX
    } else {
        n as u64
    }
}

/// Counters of the log writer.
#[derive(Debug, Clone, PartialEq, Eq)]
pub struct AofStats {
    pub operations_logged: u64,
    pub file_size_bytes: u64,
    pub file_path: String,
}

/// What the writer must do next: append `lines` to the file in order, and
/// right after writing `lines[i]` flush and fsync if `syncs[i]`.
pub struct WriteBatch {
    pub lines: Vec<String>,
    pub syncs: Vec<bool>,
}

/// The log writer's state: the records accepted and not yet handed to the
/// file (a FIFO queue), the fsync policy, and running totals.
pub struct AppendOnlyFile {
    file_path: String,
    policy: FsyncPolicy,
    pending: Vec<String>,
    pending_ops: Ghost<Seq<OpModel>>,
    operations_logged: u64,
    file_size: u64,
    closed: bool,
    accepted: Ghost<Seq<OpModel>>,
}

impl AppendOnlyFile {
    /// Every operation accepted so far, in the order of acceptance.
    pub closed spec fn accepted(&self) -> Seq<OpModel> {
        self.accepted@
    }

    /// Accepted operations whose records have not been handed to the file.
    pub closed spec fn pending(&self) -> Seq<OpModel> {
        self.pending_ops@
    }

    pub closed spec fn pending_lines(&self) -> Seq<Seq<char>> {
        self.pending@.map_values(|l: String| l@)
    }

    pub closed spec fn path(&self) -> Seq<char> {
        self.file_path@
    }

    pub closed spec fn is_closed(&self) -> bool {
        self.closed
    }

    pub closed spec fn policy(&self) -> FsyncPolicy {
        self.policy
    }

    pub closed spec fn logged(&self) -> u64 {
        self.operations_logged
    }

    /// Bytes of the log file, as far as the writer knows.
    pub closed spec fn size(&self) -> u64 {
        self.file_size
    }

    pub closed spec fn wf(&self) -> bool {
        &&& self.pending@.len() == self.pending_ops@.len()
        &&& forall|i: int|
            0 <= i < self.pending@.len() ==> (#[trigger] self.pending@[i])@ == record_line(
                self.pending_ops@[i],
            ).push('\n')
        &&& forall|i: int|
            0 <= i < self.pending_ops@.len() && is_log_key(self.pending_ops@[i].key())
                ==> good_record(#[trigger] self.pending_ops@[i])
    }

    /// A writer for the log at `file_path`, whose file already holds
    /// `file_size` bytes.
    pub fn new(file_path: String, policy: FsyncPolicy, file_size: u64) -> (r: AppendOnlyFile)
        ensures
            r.wf(),
            r.accepted() == Seq::<OpModel>::empty(),
            r.pending() == Seq::<OpModel>::empty(),
            !r.is_closed(),
            r.policy() == policy,
            r.logged() == 0,
            r.path() == file_path@,
            r.size() == file_size,
    {
        AppendOnlyFile {
            file_path,
            policy,
            pending: Vec::new(),
            pending_ops: Ghost(Seq::empty()),
            operations_logged: 0,
            file_size,
            closed: false,
            accepted: Ghost(Seq::empty()),
        }
    }

    /// Queues `operation` for the writer. Fails, queuing nothing, once the
    /// writer is closed or where the record cannot be encoded.
    pub fn log_operation(&mut self, operation: Operation) -> (r: StorageResult<()>)
        requires
            old(self).wf(),
        ensures
            final(self).wf(),
            final(self).policy() == old(self).policy(),
            final(self).is_closed() == old(self).is_closed(),
            final(self).logged() == old(self).logged(),
            r is Ok <==> !old(self).is_closed() && match operation {
                Operation::Put { value, .. } => value@.len() <= MAX_ENCODE_INPUT,
                Operation::Delete { .. } => true,
            },
            r is Ok ==> final(self).accepted() == old(self).accepted().push(operation@)
                && final(self).pending() == old(self).pending().push(operation@),
            r is Err ==> final(self).accepted() == old(self).accepted() && final(self).pending()
                == old(self).pending(),
            old(self).is_closed() ==> (r matches Err(StorageError::Persistence(m)) && m@
                == "log writer is closed"@),
    {
        if self.closed {
            return Err(StorageError::Persistence(String::from_str("log writer is closed")));
        }
        let line = operation.to_aof_entry()?;
        let ghost op = operation@;
        self.pending.push(line);
        self.pending_ops = Ghost(self.pending_ops@.push(op));
        self.accepted = Ghost(self.accepted@.push(op));
        proof {
            assert forall|i: int| 0 <= i < self.pending@.len() implies (
            #[trigger] self.pending@[i])@ == record_line(self.pending_ops@[i]).push('\n') by {
                if i < self.pending@.len() - 1 {
                    assert(old(self).pending@[i] == self.pending@[i]);
                }
            }
            assert forall|i: int|
                0 <= i < self.pending_ops@.len() && is_log_key(self.pending_ops@[i].key())
                    implies good_record(#[trigger] self.pending_ops@[i]) by {
                if i < self.pending_ops@.len() - 1 {
                    assert(old(self).pending_ops@[i] == self.pending_ops@[i]);
                }
            }
        }
        Ok(())
    }

    /// Hands every queued record to the writer, oldest first, with the
    /// policy's decision on whether to fsync after writing them.
    pub fn take_pending(&mut self) -> (b: WriteBatch)
        requires
            old(self).wf(),
        ensures
            final(self).wf(),
            final(self).pending() == Seq::<OpModel>::empty(),
            final(self).accepted() == old(self).accepted(),
            final(self).policy() == old(self).policy(),
            final(self).is_closed() == old(self).is_closed(),
            b.lines@.len() == old(self).pending().len(),
            forall|i: int|
                0 <= i < b.lines@.len() ==> (#[trigger] b.lines@[i])@ == record_line(
                    old(self).pending()[i],
                ).push('\n'),
            forall|i: int|
                0 <= i < old(self).pending().len() && is_log_key(old(self).pending()[i].key())
                    ==> good_record(#[trigger] old(self).pending()[i]),
            final(self).logged() == clamp_u64(old(self).logged() + b.lines@.len()),
            final(self).size() == clamp_u64(old(self).size() + text_bytes(b.lines@)),
            b.syncs@.len() == b.lines@.len(),
            forall|i: int|
                0 <= i < b.syncs@.len() ==> #[trigger] b.syncs@[i] == syncs_after(
                    old(self).policy(),
                    (old(self).logged() + i + 1) as nat,
                ),
    {
        let lines = self.pending.split_off(0);
        self.pending_ops = Ghost(Seq::empty());
        let count = lines.len() as u64;
        let before = self.operations_logged;
        let mut bytes: u64 = 0;
        let mut syncs: Vec<bool> = Vec::new();
        let mut i: usize = 0;
        while i < lines.len()
            invariant
                0 <= i <= lines@.len(),
                bytes == clamp_u64(text_bytes(lines@.subrange(0, i as int)) as int),
                syncs@.len() == i,
                before == old(self).operations_logged,
                self.policy == old(self).policy,
                forall|k: int|
                    0 <= k < i ==> #[trigger] syncs@[k] == syncs_after(
                        self.policy,
                        (before + k + 1) as nat,
                    ),
            decreases lines@.len() - i,
        {
            let l = lines[i].as_str().as_bytes().len();
            assert(lines@.subrange(0, i + 1).drop_last() =~= lines@.subrange(0, i as int));
            bytes = if bytes as u128 + l as u128 > u64::MAX as u128 {
                u64::MAX
            } else {
                bytes + l as u64
            };
            let j: u128 = before as u128 + i as u128 + 1;
            let sync = match self.policy {
                FsyncPolicy::Always => true,
                FsyncPolicy::EveryN(n) => n == 0 || j % (n as u128) == 0,
                FsyncPolicy::Never => false,
            };
            syncs.push(sync);
            i += 1;
        }
        assert(lines@.subrange(0, i as int) =~= lines@);
        self.file_size = if self.file_size as u128 + bytes as u128 > u64::MAX as u128 {
            u64::MAX
        } else {
            self.file_size + bytes
        };
        self.operations_logged = if before as u128 + count as u128 > u64::MAX as u128 {
            u64::MAX
        } else {
            before + count
        };
        WriteBatch { lines, syncs }
    }

    /// Stops accepting operations.
    pub fn close(&mut self)
        requires
            old(self).wf(),
        ensures
            final(self).wf(),
            final(self).is_closed(),
            final(self).accepted() == old(self).accepted(),
            final(self).pending() == old(self).pending(),
            final(self).policy() == old(self).policy(),
            final(self).logged() == old(self).logged(),
    {
        self.closed = true;
    }

    /// Running totals of the writer.
    pub fn stats(&self) -> (r: AofStats)
        ensures
            r.operations_logged == self.logged(),
            r.file_size_bytes == self.size(),
            r.file_path@ == self.path(),
    {
        AofStats {
            operations_logged: self.operations_logged,
            file_size_bytes: self.file_size,
            file_path: self.file_path.clone(),
        }
    }

    /// Restarts the totals after the log file was replaced by a compacted
    /// one of `file_size` bytes.
    pub fn reopened(&mut self, file_size: u64)
        ensures
            final(self).accepted() == old(self).accepted(),
            final(self).pending() == old(self).pending(),
            final(self).pending_lines() == old(self).pending_lines(),
            final(self).wf() == old(self).wf(),
            final(self).policy() == old(self).policy(),
            final(self).is_closed() == old(self).is_closed(),
            final(self).logged() == old(self).logged(),
            final(self).size() == file_size,
    {
        self.file_size = file_size;
    }
}

/// The text of a log holding one `SET` record per entry, in order.
pub fn compaction_text(entries: &Vec<Entry>) -> (r: StorageResult<String>)
    ensures
        r is Ok <==> forall|i: int|
            0 <= i < entries@.len() ==> (#[trigger] entries@[i]).value@.len() <= MAX_ENCODE_INPUT,
        r is Ok ==> r->Ok_0@ == records_text(
            entries@.map_values(|e: Entry| OpModel::Put { key: e.key@, value: e.value@ }),
        ),
        r is Ok && (forall|i: int| 0 <= i < entries@.len() ==> is_log_key((#[trigger] entries@[i]).key@))
            ==> log_ops(r->Ok_0@) == entries@.map_values(
            |e: Entry| OpModel::Put { key: e.key@, value: e.value@ },
        ),
{
    let ghost ops = entries@.map_values(|e: Entry| OpModel::Put { key: e.key@, value: e.value@ });
    let mut out = String::new();
    let mut i: usize = 0;
    while i < entries.len()
        invariant
            0 <= i <= entries@.len(),
            ops == entries@.map_values(|e: Entry| OpModel::Put { key: e.key@, value: e.value@ }),
            out@ == records_text(ops.subrange(0, i as int)),
            forall|j: int| 0 <= j < i ==> (#[trigger] entries@[j]).value@.len() <= MAX_ENCODE_INPUT,
            forall|j: int| 0 <= j < i && is_log_key(ops[j].key()) ==> good_record(#[trigger] ops[j]),
        decreases entries@.len() - i,
    {
        let e = &entries[i];
        let op = Operation::Put { key: e.key.clone(), value: e.value.clone() };
        assert(op@ == ops[i as int]) by {
            assert(op@->Put_value =~= e.value@);
        }
        match op.to_aof_entry() {
            Ok(line) => {
                push_str(&mut out, line.as_str());
                assert(ops.subrange(0, i + 1) =~= ops.subrange(0, i as int).push(ops[i as int]));
                proof {
                    lemma_records_text_push(ops.subrange(0, i as int), ops[i as int]);
                }
            },
            Err(err) => {
                return Err(err);
            },
        }
        i += 1;
    }
    assert(ops.subrange(0, i as int) =~= ops);
    proof {
        if forall|k: int| 0 <= k < entries@.len() ==> is_log_key((#[trigger] entries@[k]).key@) {
            assert forall|k: int| 0 <= k < ops.len() implies good_record(#[trigger] ops[k]) by {
                assert(is_log_key(entries@[k].key@));
            }
            lemma_records_read_back(ops);
        }
    }
    Ok(out)
}

/// The records of `ops`, one line each.
pub open spec fn records_text(ops: Seq<OpModel>) -> Seq<char>
    decreases ops.len(),
{
    if ops.len() == 0 {
        Seq::empty()
    } else {
        record_line(ops[0]).push('\n') + records_text(ops.drop_first())
    }
}

proof fn lemma_records_text_push(ops: Seq<OpModel>, op: OpModel)
    ensures
        records_text(ops.push(op)) == records_text(ops) + record_line(op).push('\n'),
    decreases ops.len(),
{
    if ops.len() > 0 {
        assert(ops.push(op).drop_first() =~= ops.drop_first().push(op));
        lemma_records_text_push(ops.drop_first(), op);
        assert(records_text(ops.push(op)) =~= records_text(ops) + record_line(op).push('\n'));
    } else {
        assert(ops.push(op).drop_first() =~= Seq::<OpModel>::empty());
        assert(ops.push(op)[0] == op);
        assert(records_text(Seq::<OpModel>::empty()) == Seq::<char>::empty());
        assert(ops =~= Seq::<OpModel>::empty());
        assert(records_text(ops.push(op)) =~= records_text(ops) + record_line(op).push('\n'));
    }
}

/// The text of lines written one after another.
pub open spec fn lines_text(lines: Seq<Seq<char>>) -> Seq<char>
    decreases lines.len(),
{
    if lines.len() == 0 {
        Seq::empty()
    } else {
        lines[0] + lines_text(lines.drop_first())
    }
}

/// Lines that are the records of `ops`, written in order, make the text of
/// those records.
pub proof fn lemma_lines_are_records(lines: Seq<Seq<char>>, ops: Seq<OpModel>)
    requires
        lines.len() == ops.len(),
        forall|i: int| 0 <= i < lines.len() ==> #[trigger] lines[i] == record_line(ops[i]).push('\n'),
    ensures
        lines_text(lines) == records_text(ops),
    decreases lines.len(),
{
    if lines.len() > 0 {
        assert forall|i: int| 0 <= i < lines.drop_first().len() implies #[trigger] lines.drop_first()[i]
            == record_line(ops.drop_first()[i]).push('\n') by {
            assert(lines[i + 1] == record_line(ops[i + 1]).push('\n'));
        }
        lemma_lines_are_records(lines.drop_first(), ops.drop_first());
        assert(lines[0] == record_line(ops[0]).push('\n'));
    }
}

/// A record whose line reads back as the operation and holds no line feed.
pub open spec fn good_record(op: OpModel) -> bool {
    &&& line_op(record_line(op)) == Some(op)
    &&& forall|i: int| 0 <= i < record_line(op).len() ==> #[trigger] record_line(op)[i] != '\n'
}

proof fn lemma_first_from_shift(s: Seq<char>, c: char, k: int, i: int)
    requires
        0 <= k <= i <= s.len(),
    ensures
        first_from(s, c, i) == k + first_from(s.subrange(k, s.len() as int), c, i - k),
    decreases s.len() - i,
{
    let t = s.subrange(k, s.len() as int);
    if i < s.len() {
        assert(t[i - k] == s[i]);
        if s[i] != c {
            lemma_first_from_shift(s, c, k, i + 1);
        }
    }
}

proof fn lemma_log_ops_shift(s: Seq<char>, k: int, i: int)
    requires
        0 <= k <= i <= s.len(),
    ensures
        log_ops_from(s, i) == log_ops_from(s.subrange(k, s.len() as int), i - k),
    decreases s.len() - i,
{
    let t = s.subrange(k, s.len() as int);
    if i < s.len() {
        lemma_first_from_bounds(s, '\n', i);
        lemma_first_from_shift(s, '\n', k, i);
        let j = first_from(s, '\n', i);
        assert(s.subrange(i, j) =~= t.subrange(i - k, j - k));
        if j < s.len() {
            lemma_log_ops_shift(s, k, j + 1);
        }
    }
}

/// Reading back the records of operations whose lines are good gives those
/// operations, in order.
pub proof fn lemma_records_read_back(ops: Seq<OpModel>)
    requires
        forall|i: int| 0 <= i < ops.len() ==> good_record(#[trigger] ops[i]),
    ensures
        log_ops(records_text(ops)) == ops,
    decreases ops.len(),
{
    let s = records_text(ops);
    if ops.len() > 0 {
        let l = record_line(ops[0]);
        let rest = ops.drop_first();
        assert(good_record(ops[0]));
        assert forall|i: int| 0 <= i < rest.len() implies good_record(#[trigger] rest[i]) by {
            assert(rest[i] == ops[i + 1]);
            assert(good_record(ops[i + 1]));
        }
        lemma_records_read_back(rest);
        assert(s == l.push('\n') + records_text(rest));
        assert forall|t: int| 0 <= t < l.len() implies s[t] != '\n' by {
            assert(s[t] == l[t]);
        }
        lemma_first_from_skips(s, '\n', 0, l.len() as int);
        assert(s[l.len() as int] == '\n');
        assert(first_from(s, '\n', l.len() as int) == l.len());
        assert(s.subrange(0, l.len() as int) =~= l);
        lemma_log_ops_shift(s, (l.len() + 1) as int, (l.len() + 1) as int);
        assert(s.subrange((l.len() + 1) as int, s.len() as int) =~= records_text(rest));
        assert(seq![ops[0]] + rest =~= ops);
    } else {
        assert(log_ops(s) =~= Seq::<OpModel>::empty());
    }
}

} // verus!
