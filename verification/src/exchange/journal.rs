//! The journal of the exchange. Each record has a magic number, the sequence number of
//! its command, a length, a checksum, and as many bytes as the length says; all numbers
//! with the lowest byte first.
use vstd::prelude::*;
use vstd::slice::{slice_subrange, slice_to_vec};

use crate::exchange::checksum;
use crate::wal::journal as words;

verus! {

/// Marks the beginning of a record.
pub const RECORD_MAGIC: u32 = 0x3257_434D;

/// Length of what stands before the bytes of a record.
pub const HEADER_LEN: usize = 20;

/// The longest record.
pub const MAX_RECORD_LEN: usize = 1_048_576;

/// When the journal is made durable.
#[derive(Debug, Clone, Copy, PartialEq, Eq, Structural)]
pub enum SyncPolicy {
    /// With every command.
    EveryCommand,
    /// With every so many commands. A crash loses the last ones at most.
    EveryN(usize),
    /// Never on its own account.
    Never,
}

/// A record: the sequence number and the bytes of a command.
#[derive(Debug, Clone)]
pub struct Record {
    pub seq: u64,
    pub payload: Vec<u8>,
}

#[verifier::ext_equal]
pub struct RecordModel {
    pub seq: u64,
    pub payload: Seq<u8>,
}

impl View for Record {
    type V = RecordModel;

    open spec fn view(&self) -> RecordModel {
        RecordModel { seq: self.seq, payload: self.payload@ }
    }
}

pub open spec fn records_of(v: Seq<Record>) -> Seq<RecordModel> {
    v.map_values(|r: Record| r@)
}

/// The bytes of a sequence number.
pub open spec fn seq_bytes(x: u64) -> Seq<u8> {
    words::le_bytes((x % 0x1_0000_0000) as u32) + words::le_bytes((x / 0x1_0000_0000) as u32)
}

/// The sequence number that eight bytes stand for.
pub open spec fn seq_at(b: Seq<u8>, at: int) -> int {
    words::word_at(b, at) + 0x1_0000_0000 * words::word_at(b, at + 4)
}

/// What stands before the bytes of a record.
pub open spec fn header(seq: u64, payload: Seq<u8>) -> Seq<u8> {
    words::le_bytes(RECORD_MAGIC) + seq_bytes(seq) + words::le_bytes(payload.len() as u32)
        + words::le_bytes(checksum::crc32_of(payload))
}

/// A record as it stands in the journal.
pub open spec fn frame(r: RecordModel) -> Seq<u8> {
    header(r.seq, r.payload) + r.payload
}

/// Records as they stand in the journal, one after the other.
pub open spec fn frames(rs: Seq<RecordModel>) -> Seq<u8>
    decreases rs.len(),
{
    if rs.len() == 0 {
        Seq::empty()
    } else {
        frame(rs.first()) + frames(rs.drop_first())
    }
}

/// What stands at a place of the journal.
pub enum Head {
    /// The end.
    End,
    /// Nothing that can be read.
    Torn,
    /// A record, as far as its header tells.
    Record { seq: u64, len: int, crc: u32 },
}

#[verifier::opaque]
pub open spec fn head_at(b: Seq<u8>, at: int) -> Head {
    if at == b.len() {
        Head::End
    } else if at + HEADER_LEN > b.len() {
        Head::Torn
    } else if words::word_at(b, at) != RECORD_MAGIC {
        Head::Torn
    } else {
        let len = words::word_at(b, at + 12);
        if len > MAX_RECORD_LEN || at + HEADER_LEN + len > b.len() {
            Head::Torn
        } else {
            Head::Record {
                seq: seq_at(b, at + 4) as u64,
                len,
                crc: words::word_at(b, at + 16) as u32,
            }
        }
    }
}

/// A header that a scan found.
#[derive(Debug, Clone, Copy)]
pub struct Heading {
    pub seq: u64,
    pub offset: usize,
}

/// What a scan of the headers gives: the headers, where the last record ends, and
/// whether what follows cannot be read.
pub struct Headers {
    pub headings: Seq<(u64, int)>,
    pub end: int,
    pub torn: bool,
}

pub open spec fn headers(b: Seq<u8>, at: int) -> Headers
    decreases b.len() - at,
{
    proof {
        reveal(head_at);
    }
    match head_at(b, at) {
        Head::End => Headers { headings: Seq::empty(), end: at, torn: false },
        Head::Torn => Headers { headings: Seq::empty(), end: at, torn: true },
        Head::Record { seq, len, crc } => {
            let rest = headers(b, at + HEADER_LEN + len);
            Headers { headings: seq![(seq, at)] + rest.headings, ..rest }
        },
    }
}

/// What reading gives: the records up to the end or the first one that is damaged.
#[verifier::ext_equal]
pub struct Reading {
    pub records: Seq<RecordModel>,
    pub end: int,
    pub torn: bool,
}

pub open spec fn reading(b: Seq<u8>, at: int) -> Reading
    decreases b.len() - at,
{
    proof {
        reveal(head_at);
    }
    match head_at(b, at) {
        Head::End => Reading { records: Seq::empty(), end: at, torn: false },
        Head::Torn => Reading { records: Seq::empty(), end: at, torn: true },
        Head::Record { seq, len, crc } => {
            let payload = b.subrange(at + HEADER_LEN, at + HEADER_LEN + len);
            if checksum::crc32_of(payload) != crc {
                Reading { records: Seq::empty(), end: at, torn: true }
            } else {
                let rest = reading(b, at + HEADER_LEN + len);
                Reading { records: seq![RecordModel { seq, payload }] + rest.records, ..rest }
            }
        },
    }
}

/// What the header at a place tells.
#[derive(Debug, Clone, Copy)]
enum Parsed {
    End,
    Torn,
    Record { seq: u64, len: usize, crc: u32 },
}

fn parse_header(b: &[u8], at: usize) -> (r: Parsed)
    requires
        at <= b@.len(),
    ensures
        match head_at(b@, at as int) {
            Head::End => r is End,
            Head::Torn => r is Torn,
            Head::Record { seq, len, crc } => r == (Parsed::Record {
                seq,
                len: len as usize,
                crc,
            }) && 0 <= len <= MAX_RECORD_LEN && at + HEADER_LEN + len <= b@.len(),
        },
{
    proof {
        reveal(head_at);
    }
    let n: usize = b.len();
    if at == n {
        return Parsed::End;
    }
    if n - at < HEADER_LEN {
        return Parsed::Torn;
    }
    if words::word_from(b, at) != RECORD_MAGIC {
        return Parsed::Torn;
    }
    let low: u64 = words::word_from(b, at + 4) as u64;
    let high: u64 = words::word_from(b, at + 8) as u64;
    let seq: u64 = low + 0x1_0000_0000 * high;
    let len: usize = words::word_from(b, at + 12) as usize;
    if len > MAX_RECORD_LEN || n - at - HEADER_LEN < len {
        return Parsed::Torn;
    }
    Parsed::Record { seq, len, crc: words::word_from(b, at + 16) }
}

/// The end of a scan.
pub struct ScanEnd {
    pub headings: Vec<Heading>,
    /// Where the last record ends: what is appended goes here.
    pub valid_end: usize,
    /// From where on the journal cannot be read.
    pub truncated_at: Option<usize>,
}

pub open spec fn headings_of(v: Seq<Heading>) -> Seq<(u64, int)> {
    v.map_values(|h: Heading| (h.seq, h.offset as int))
}

/// The sequence number of the last of some records.
pub open spec fn last_of(headings: Seq<(u64, int)>) -> Option<u64> {
    if headings.len() > 0 {
        Some(headings.last().0)
    } else {
        None
    }
}

/// Scans the headers of a journal. The bytes of the records are passed over.
pub fn scan_headers(b: &[u8]) -> (r: ScanEnd)
    ensures
        headings_of(r.headings@) == headers(b@, 0).headings,
        r.valid_end == headers(b@, 0).end,
        r.valid_end <= b@.len(),
        r.truncated_at == (if headers(b@, 0).torn {
            Some(r.valid_end)
        } else {
            None
        }),
{
    let total: usize = b.len();
    let mut headings: Vec<Heading> = Vec::new();
    let mut offset: usize = 0;
    let ghost all = headers(b@, 0);
    proof {
        assert(headings_of(headings@) + all.headings =~= all.headings);
    }
    loop
        invariant
            offset <= total == b@.len(),
            all == headers(b@, 0),
            all.headings == headings_of(headings@) + headers(b@, offset as int).headings,
            all.end == headers(b@, offset as int).end,
            all.torn == headers(b@, offset as int).torn,
        decreases b@.len() - offset,
    {
        match parse_header(b, offset) {
            Parsed::End => {
                assert(headings_of(headings@) + Seq::<(u64, int)>::empty() =~= headings_of(
                    headings@,
                ));
                return ScanEnd { headings, valid_end: offset, truncated_at: None };
            },
            Parsed::Torn => {
                assert(headings_of(headings@) + Seq::<(u64, int)>::empty() =~= headings_of(
                    headings@,
                ));
                return ScanEnd { headings, valid_end: offset, truncated_at: Some(offset) };
            },
            Parsed::Record { seq, len, crc } => {
                let ghost before = headings_of(headings@);
                let next: usize = offset + HEADER_LEN + len;
                headings.push(Heading { seq, offset });
                proof {
                    let rest = headers(b@, next as int).headings;
                    assert(headings_of(headings@) =~= before.push((seq, offset as int)));
                    assert(before + (seq![(seq, offset as int)] + rest) =~= before.push(
                        (seq, offset as int),
                    ) + rest);
                }
                offset = next;
            },
        }
    }
}

/// What a journal gives back.
pub struct ReplayOutcome {
    pub records: Vec<Record>,
    /// The last sequence number in the journal, whatever is kept of its records.
    pub last_seq: Option<u64>,
    /// From where on the journal cannot be read.
    pub truncated_at: Option<u64>,
}

pub open spec fn last_seq_of(rs: Seq<RecordModel>) -> Option<u64> {
    if rs.len() > 0 {
        Some(rs.last().seq)
    } else {
        None
    }
}

/// The records with a sequence number above another.
pub open spec fn above(rs: Seq<RecordModel>, seq: u64) -> Seq<RecordModel>
    decreases rs.len(),
{
    if rs.len() == 0 {
        Seq::empty()
    } else if rs.last().seq > seq {
        above(rs.drop_last(), seq).push(rs.last())
    } else {
        above(rs.drop_last(), seq)
    }
}

/// Where the record at an index begins.
pub open spec fn offset_of(rs: Seq<RecordModel>, k: int) -> int {
    frames(rs.take(k)).len() as int
}

/// Reads the records of a journal. Reading stops at a record that is damaged or was
/// cut off; what stands before it counts.
pub fn read_commands(b: &[u8]) -> (r: ReplayOutcome)
    ensures
        records_of(r.records@) == reading(b@, 0).records,
        r.last_seq == last_seq_of(reading(b@, 0).records),
        r.truncated_at == (if reading(b@, 0).torn {
            Some(reading(b@, 0).end as u64)
        } else {
            None
        }),
{
    let total: usize = b.len();
    let mut records: Vec<Record> = Vec::new();
    let mut last_seq: Option<u64> = None;
    let mut offset: usize = 0;
    let ghost all = reading(b@, 0);
    proof {
        assert(records_of(records@) + all.records =~= all.records);
    }
    loop
        invariant
            offset <= total == b@.len(),
            all == reading(b@, 0),
            all.records == records_of(records@) + reading(b@, offset as int).records,
            all.end == reading(b@, offset as int).end,
            all.torn == reading(b@, offset as int).torn,
            last_seq == last_seq_of(records_of(records@)),
        decreases b@.len() - offset,
    {
        let ghost before = records_of(records@);
        proof {
            assert(before + Seq::<RecordModel>::empty() =~= before);
        }
        match parse_header(b, offset) {
            Parsed::End => {
                return ReplayOutcome { records, last_seq, truncated_at: None };
            },
            Parsed::Torn => {
                return ReplayOutcome { records, last_seq, truncated_at: Some(offset as u64) };
            },
            Parsed::Record { seq, len, crc } => {
                let next: usize = offset + HEADER_LEN + len;
                let data: &[u8] = slice_subrange(b, offset + HEADER_LEN, next);
                if checksum::crc32(data) != crc {
                    return ReplayOutcome { records, last_seq, truncated_at: Some(offset as u64) };
                }
                records.push(Record { seq, payload: slice_to_vec(data) });
                last_seq = Some(seq);
                proof {
                    let r = RecordModel { seq, payload: data@ };
                    let rest = reading(b@, next as int).records;
                    assert(records_of(records@) =~= before.push(r));
                    assert(before + (seq![r] + rest) =~= before.push(r) + rest);
                }
                offset = next;
            },
        }
    }
}

/// Reads the records whose sequence numbers are above one, as they are to be applied on
/// top of a snapshot of it.
pub fn read_commands_after(b: &[u8], after_seq: u64) -> (r: ReplayOutcome)
    ensures
        records_of(r.records@) == above(reading(b@, 0).records, after_seq),
        r.last_seq == last_seq_of(reading(b@, 0).records),
        r.truncated_at == (if reading(b@, 0).torn {
            Some(reading(b@, 0).end as u64)
        } else {
            None
        }),
{
    let mut r = read_commands(b);
    r.keep_above(after_seq);
    r
}

impl ReplayOutcome {
    /// Drops the records up to a sequence number.
    pub fn keep_above(&mut self, after_seq: u64)
        ensures
            records_of(final(self).records@) == above(records_of(old(self).records@), after_seq),
            final(self).last_seq == old(self).last_seq,
            final(self).truncated_at == old(self).truncated_at,
    {
        let mut kept: Vec<Record> = Vec::new();
        let ghost rs = records_of(self.records@);
        let mut i: usize = 0;
        proof {
            assert(rs.take(rs.len() as int) =~= rs);
            assert(records_of(kept@) =~= above(rs.take(0), after_seq));
        }
        while i < self.records.len()
            invariant
                rs == records_of(self.records@),
                i <= rs.len(),
                records_of(kept@) == above(rs.take(i as int), after_seq),
            decreases rs.len() - i,
        {
            proof {
                assert(rs.take(i + 1).drop_last() =~= rs.take(i as int));
            }
            let seq: u64 = self.records[i].seq;
            if seq > after_seq {
                let ghost before = records_of(kept@);
                let payload: Vec<u8> = slice_to_vec(self.records[i].payload.as_slice());
                kept.push(Record { seq, payload });
                assert(records_of(kept@) =~= before.push(rs[i as int]));
            }
            i = i + 1;
        }
        self.records = kept;
    }

    /// Takes the record at an index for damaged: the journal counts up to there.
    pub fn stop_at(&mut self, k: usize)
        requires
            k < old(self).records@.len(),
            offset_of(records_of(old(self).records@), k as int) <= u64::MAX,
        ensures
            records_of(final(self).records@) == records_of(old(self).records@).take(k as int),
            final(self).last_seq == last_seq_of(records_of(old(self).records@).take(k as int)),
            final(self).truncated_at == Some(
                offset_of(records_of(old(self).records@), k as int) as u64,
            ),
    {
        let ghost rs = records_of(self.records@);
        let mut offset: u64 = 0;
        let mut last_seq: Option<u64> = None;
        let mut i: usize = 0;
        proof {
            assert(rs.take(0) =~= Seq::<RecordModel>::empty());
        }
        while i < k
            invariant
                rs == records_of(self.records@),
                k < rs.len(),
                i <= k,
                offset == offset_of(rs, i as int),
                last_seq == last_seq_of(rs.take(i as int)),
                offset_of(rs, k as int) <= u64::MAX,
            decreases k - i,
        {
            proof {
                lemma_offset_grows(rs, i as int, k as int);
                assert(rs.take(i + 1).last() == rs[i as int]);
            }
            offset = offset + HEADER_LEN as u64 + self.records[i].payload.len() as u64;
            last_seq = Some(self.records[i].seq);
            i = i + 1;
        }
        self.records.truncate(k);
        self.last_seq = last_seq;
        self.truncated_at = Some(offset);
        assert(records_of(self.records@) =~= rs.take(k as int));
    }
}

proof fn lemma_frames_join(a: Seq<RecordModel>, b: Seq<RecordModel>)
    ensures
        frames(a + b) == frames(a) + frames(b),
    decreases a.len(),
{
    if a.len() == 0 {
        assert(a + b =~= b);
        assert(frames(a) + frames(b) =~= frames(b));
    } else {
        assert((a + b).drop_first() =~= a.drop_first() + b);
        assert((a + b).first() == a.first());
        lemma_frames_join(a.drop_first(), b);
        assert(frame(a.first()) + (frames(a.drop_first()) + frames(b)) =~= frames(a) + frames(b));
    }
}

proof fn lemma_frame_len(r: RecordModel)
    ensures
        frame(r).len() == HEADER_LEN + r.payload.len(),
        header(r.seq, r.payload).len() == HEADER_LEN,
{
}

/// Records begin one after the other.
proof fn lemma_offset_grows(rs: Seq<RecordModel>, i: int, k: int)
    requires
        0 <= i < k <= rs.len(),
    ensures
        offset_of(rs, i + 1) == offset_of(rs, i) + HEADER_LEN + rs[i].payload.len(),
        offset_of(rs, i + 1) <= offset_of(rs, k),
    decreases k - i,
{
    assert(rs.take(i + 1) =~= rs.take(i) + seq![rs[i]]);
    lemma_frames_join(rs.take(i), seq![rs[i]]);
    assert(seq![rs[i]].drop_first() =~= Seq::<RecordModel>::empty());
    assert(frames(seq![rs[i]].drop_first()).len() == 0);
    lemma_frame_len(rs[i]);
    if i + 1 < k {
        lemma_offset_grows(rs, i + 1, k);
    }
}

/// Why a command is not journaled.
#[derive(Debug, Clone, Copy, PartialEq, Eq, Structural)]
pub enum JournalError {
    TooLong { len: usize },
}

/// The writing end of the journal: what is still to be written to the file, and when it
/// is to be made durable.
pub struct Journaler {
    pending: Vec<u8>,
    policy: SyncPolicy,
    since_sync: usize,
    next_seq: u64,
}

/// The sequence number of the record that follows a journal. A damaged record counts as
/// long as its header can be read, so that no number is given out again that a saved state
/// may cover.
pub open spec fn following(b: Seq<u8>) -> int {
    match last_of(headers(b, 0).headings) {
        Some(s) => s + 1,
        None => 1,
    }
}

impl Journaler {
    pub closed spec fn waiting(&self) -> Seq<u8> {
        self.pending@
    }

    pub closed spec fn next(&self) -> u64 {
        self.next_seq
    }

    pub closed spec fn unsynced(&self) -> int {
        self.since_sync as int
    }

    pub closed spec fn strategy(&self) -> SyncPolicy {
        self.policy
    }

    pub closed spec fn wf(&self) -> bool {
        self.next_seq >= 1
    }

    /// Continues a journal whose bytes these are, and makes every command durable.
    pub fn new(existing: &[u8]) -> (r: Journaler)
        requires
            following(existing@) <= u64::MAX,
        ensures
            r.wf(),
            r.waiting().len() == 0,
            r.next() == following(existing@),
            r.unsynced() == 0,
            r.strategy() == SyncPolicy::EveryCommand,
    {
        Journaler::with_sync_policy(existing, SyncPolicy::EveryCommand)
    }

    /// Continues a journal whose bytes these are.
    pub fn with_sync_policy(existing: &[u8], policy: SyncPolicy) -> (r: Journaler)
        requires
            following(existing@) <= u64::MAX,
        ensures
            r.wf(),
            r.waiting().len() == 0,
            r.next() == following(existing@),
            r.unsynced() == 0,
            r.strategy() == policy,
    {
        let scan = scan_headers(existing);
        let n: usize = scan.headings.len();
        let next_seq: u64 = if n == 0 {
            1
        } else {
            assert(headings_of(scan.headings@).last().0 == scan.headings@[n - 1].seq);
            scan.headings[n - 1].seq + 1
        };
        Journaler { pending: Vec::new(), policy, since_sync: 0, next_seq }
    }

    /// The sequence number that was written last, or 0.
    pub fn last_seq(&self) -> (r: u64)
        requires
            self.wf(),
        ensures
            r == self.next() - 1,
    {
        self.next_seq - 1
    }

    /// Appends the bytes of a command. Returns its sequence number, and whether the
    /// journal is to be made durable now.
    pub fn write_command(&mut self, payload: &[u8]) -> (r: Result<(u64, bool), JournalError>)
        requires
            old(self).wf(),
            old(self).next() < u64::MAX,
            old(self).unsynced() < usize::MAX,
        ensures
            final(self).wf(),
            final(self).strategy() == old(self).strategy(),
            payload@.len() > MAX_RECORD_LEN ==> r == Err::<(u64, bool), JournalError>(
                JournalError::TooLong { len: payload@.len() as usize },
            ) && *final(self) == *old(self),
            payload@.len() <= MAX_RECORD_LEN ==> {
                &&& r matches Ok((seq, sync)) && seq == old(self).next() && sync == due(
                    old(self).strategy(),
                    old(self).unsynced() + 1,
                )
                &&& final(self).waiting() == old(self).waiting() + frame(
                    RecordModel { seq: old(self).next(), payload: payload@ },
                )
                &&& final(self).next() == old(self).next() + 1
                &&& final(self).unsynced() == old(self).unsynced() + 1
            },
    {
        if payload.len() > MAX_RECORD_LEN {
            return Err(JournalError::TooLong { len: payload.len() });
        }
        let seq: u64 = self.next_seq;
        let ghost before = self.pending@;
        words::push_word(&mut self.pending, RECORD_MAGIC);
        words::push_word(&mut self.pending, (seq % 0x1_0000_0000) as u32);
        words::push_word(&mut self.pending, (seq / 0x1_0000_0000) as u32);
        words::push_word(&mut self.pending, payload.len() as u32);
        words::push_word(&mut self.pending, checksum::crc32(payload));
        let ghost head = self.pending@;
        assert(head =~= before + header(seq, payload@));
        let mut i: usize = 0;
        while i < payload.len()
            invariant
                i <= payload@.len(),
                self.pending@ == head + payload@.take(i as int),
                self.policy == old(self).policy,
                self.since_sync == old(self).since_sync,
                self.next_seq == old(self).next_seq,
            decreases payload@.len() - i,
        {
            self.pending.push(payload[i]);
            i = i + 1;
            assert(self.pending@ =~= head + payload@.take(i as int));
        }
        proof {
            assert(payload@.take(i as int) =~= payload@);
            assert(self.pending@ =~= before + frame(RecordModel { seq, payload: payload@ }));
        }
        self.next_seq = seq + 1;
        Ok((seq, self.maybe_sync()))
    }

    /// Counts a command, and tells whether the journal is to be made durable.
    fn maybe_sync(&mut self) -> (r: bool)
        requires
            old(self).since_sync < usize::MAX,
        ensures
            r == due(old(self).policy, old(self).since_sync + 1),
            *final(self) == (Journaler {
                since_sync: (old(self).since_sync + 1) as usize,
                ..*old(self)
            }),
    {
        self.since_sync = self.since_sync + 1;
        match self.policy {
            SyncPolicy::EveryCommand => true,
            SyncPolicy::EveryN(n) => self.since_sync >= n || n == 0,
            SyncPolicy::Never => false,
        }
    }

    /// The bytes that are still to be written to the file.
    pub fn pending(&self) -> (r: &[u8])
        ensures
            r@ == self.waiting(),
    {
        self.pending.as_slice()
    }

    /// Notes that the bytes were handed to the file.
    pub fn written(&mut self)
        requires
            old(self).wf(),
        ensures
            final(self).wf(),
            final(self).waiting().len() == 0,
            final(self).next() == old(self).next(),
            final(self).unsynced() == old(self).unsynced(),
            final(self).strategy() == old(self).strategy(),
    {
        self.pending = Vec::new();
    }

    /// Notes that the file was made durable.
    pub fn sync(&mut self)
        requires
            old(self).wf(),
        ensures
            final(self).wf(),
            final(self).waiting() == old(self).waiting(),
            final(self).next() == old(self).next(),
            final(self).unsynced() == 0,
            final(self).strategy() == old(self).strategy(),
    {
        self.since_sync = 0;
    }
}

/// Whether so many commands are made durable together.
pub open spec fn due(policy: SyncPolicy, count: int) -> bool {
    match policy {
        SyncPolicy::EveryCommand => true,
        SyncPolicy::EveryN(n) => count >= n || n == 0,
        SyncPolicy::Never => false,
    }
}

/// Where the first of some records above a sequence number begins.
pub open spec fn first_above(headings: Seq<(u64, int)>, seq: u64, end: int) -> int
    decreases headings.len(),
{
    if headings.len() == 0 {
        end
    } else if headings.first().0 > seq {
        headings.first().1
    } else {
        first_above(headings.drop_first(), seq, end)
    }
}

/// What is left of a journal once the records up to a sequence number are dropped,
/// together with what cannot be read at its end: a record that was cut off or is damaged,
/// and all that follows it.
pub open spec fn compacted(b: Seq<u8>, keep_after_seq: u64) -> Seq<u8> {
    let h = headers(b, 0);
    let start = first_above(h.headings, keep_after_seq, h.end);
    b.subrange(start, reading(b, start).end)
}

/// Where the records end that can be read from a place on.
fn readable_end(b: &[u8], from: usize) -> (r: usize)
    requires
        from <= b@.len(),
    ensures
        r == reading(b@, from as int).end,
        from <= r <= b@.len(),
{
    let total: usize = b.len();
    let mut offset: usize = from;
    loop
        invariant
            from <= offset <= total == b@.len(),
            reading(b@, from as int).end == reading(b@, offset as int).end,
        decreases b@.len() - offset,
    {
        match parse_header(b, offset) {
            Parsed::Record { seq, len, crc } => {
                let next: usize = offset + HEADER_LEN + len;
                if checksum::crc32(slice_subrange(b, offset + HEADER_LEN, next)) != crc {
                    return offset;
                }
                offset = next;
            },
            _ => {
                return offset;
            },
        }
    }
}

/// The range of bytes that stays, or `None` where all of them do.
pub fn compact_before(b: &[u8], keep_after_seq: u64) -> (r: Option<(usize, usize)>)
    ensures
        match r {
            None => compacted(b@, keep_after_seq) == b@,
            Some((start, end)) => {
                &&& start <= end <= b@.len()
                &&& b@.subrange(start as int, end as int) == compacted(b@, keep_after_seq)
                &&& start > 0 || end < b@.len()
            },
        },
{
    let scan = scan_headers(b);
    let ghost h = headers(b@, 0);
    let mut i: usize = 0;
    let ghost hs = headings_of(scan.headings@);
    proof {
        assert(hs.skip(0) =~= hs);
        lemma_headings_within(b@, 0);
    }
    while i < scan.headings.len() && scan.headings[i].seq <= keep_after_seq
        invariant
            i <= scan.headings@.len(),
            hs == headings_of(scan.headings@),
            first_above(hs, keep_after_seq, h.end) == first_above(
                hs.skip(i as int),
                keep_after_seq,
                h.end,
            ),
        decreases scan.headings@.len() - i,
    {
        proof {
            assert(hs.skip(i as int).drop_first() =~= hs.skip(i + 1));
            assert(hs.skip(i as int).first() == hs[i as int]);
        }
        i = i + 1;
    }
    let start: usize = if i < scan.headings.len() {
        proof {
            assert(hs.skip(i as int).first() == hs[i as int]);
            assert(h.headings[i as int] == hs[i as int]);
        }
        scan.headings[i].offset
    } else {
        assert(hs.skip(i as int).len() == 0);
        scan.valid_end
    };
    let end: usize = readable_end(b, start);
    if start == 0 && end == b.len() {
        assert(b@.subrange(0, b@.len() as int) =~= b@);
        return None;
    }
    Some((start, end))
}

/// The headers of a scan stand before its end.
proof fn lemma_headings_within(b: Seq<u8>, at: int)
    requires
        0 <= at <= b.len(),
    ensures
        at <= headers(b, at).end <= b.len(),
        forall|i: int|
            0 <= i < headers(b, at).headings.len() ==> at <= (#[trigger] headers(
                b,
                at,
            ).headings[i]).1 <= headers(b, at).end,
    decreases b.len() - at,
{
    reveal(head_at);
    match head_at(b, at) {
        Head::Record { seq, len, crc } => {
            let next = at + HEADER_LEN + len;
            lemma_headings_within(b, next);
            let rest = headers(b, next).headings;
            assert forall|i: int| 0 <= i < headers(b, at).headings.len() implies at <= (
            #[trigger] headers(b, at).headings[i]).1 <= headers(b, at).end by {
                if i > 0 {
                    assert(headers(b, at).headings[i] == rest[i - 1]);
                }
            }
        },
        _ => {},
    }
}

/// How many bytes at the end of a journal cannot be read and are to be cut off before
/// anything is appended.
pub fn truncate_to_last_valid(b: &[u8]) -> (r: usize)
    ensures
        r == b@.len() - reading(b@, 0).end,
{
    b.len() - readable_end(b, 0)
}

/// The bytes of a sequence number stand for it.
proof fn lemma_seq(x: u64, b: Seq<u8>, at: int)
    requires
        0 <= at,
        at + 8 <= b.len(),
        b.subrange(at, at + 8) == seq_bytes(x),
    ensures
        seq_at(b, at) == x,
{
    let low = (x % 0x1_0000_0000) as u32;
    let high = (x / 0x1_0000_0000) as u32;
    let s = b.subrange(at, at + 8);
    assert(b.subrange(at, at + 4) =~= s.subrange(0, 4));
    assert(s.subrange(0, 4) =~= words::le_bytes(low));
    assert(b.subrange(at + 4, at + 8) =~= s.subrange(4, 8));
    assert(s.subrange(4, 8) =~= words::le_bytes(high));
    words::lemma_word(low, b, at);
    words::lemma_word(high, b, at + 4);
}

/// A record that fits stands where it was written. Its bytes may be others, as many as
/// before.
#[verifier::rlimit(30)]
proof fn lemma_head(pre: Seq<u8>, r: RecordModel, found: Seq<u8>, rest: Seq<u8>)
    requires
        r.payload.len() <= MAX_RECORD_LEN,
        found.len() == r.payload.len(),
    ensures
        ({
            let b = pre + (header(r.seq, r.payload) + found) + rest;
            let at = pre.len() as int;
            &&& head_at(b, at) == (Head::Record {
                seq: r.seq,
                len: r.payload.len() as int,
                crc: checksum::crc32_of(r.payload),
            })
            &&& b.subrange(at + HEADER_LEN, at + HEADER_LEN + r.payload.len()) == found
        }),
{
    reveal(head_at);
    let h = header(r.seq, r.payload);
    let b = pre + (h + found) + rest;
    let at = pre.len() as int;
    let len = r.payload.len() as u32;
    let crc = checksum::crc32_of(r.payload);
    assert(b.subrange(at, at + 4) =~= words::le_bytes(RECORD_MAGIC));
    assert(b.subrange(at + 4, at + 12) =~= seq_bytes(r.seq));
    assert(b.subrange(at + 12, at + 16) =~= words::le_bytes(len));
    assert(b.subrange(at + 16, at + 20) =~= words::le_bytes(crc));
    words::lemma_word(RECORD_MAGIC, b, at);
    lemma_seq(r.seq, b, at + 4);
    words::lemma_word(len, b, at + 12);
    words::lemma_word(crc, b, at + 16);
    assert(b.subrange(at + HEADER_LEN, at + HEADER_LEN + r.payload.len()) =~= found);
}

/// All records are short enough to be written.
pub open spec fn all_fit(rs: Seq<RecordModel>) -> bool {
    forall|i: int| 0 <= i < rs.len() ==> (#[trigger] rs[i]).payload.len() <= MAX_RECORD_LEN
}

/// A reader gets the records that stand before a place, and then what stands there.
proof fn lemma_reads_through(pre: Seq<u8>, rs: Seq<RecordModel>, tail: Seq<u8>)
    requires
        all_fit(rs),
    ensures
        ({
            let b = pre + frames(rs) + tail;
            let all = reading(b, pre.len() as int);
            let more = reading(b, (pre.len() + frames(rs).len()) as int);
            &&& all.records == rs + more.records
            &&& all.end == more.end
            &&& all.torn == more.torn
        }),
    decreases rs.len(),
{
    let b = pre + frames(rs) + tail;
    let more = reading(b, (pre.len() + frames(rs).len()) as int);
    if rs.len() == 0 {
        assert(rs + more.records =~= more.records);
    } else {
        let r = rs.first();
        let rest = rs.drop_first();
        assert(rs[0] == r);
        assert forall|i: int| 0 <= i < rest.len() implies (#[trigger] rest[i]).payload.len()
            <= MAX_RECORD_LEN by {
            assert(rest[i] == rs[i + 1]);
        }
        let pre2 = pre + frame(r);
        assert(b =~= pre + (header(r.seq, r.payload) + r.payload) + (frames(rest) + tail));
        assert(b =~= pre2 + frames(rest) + tail);
        lemma_frame_len(r);
        lemma_head(pre, r, r.payload, frames(rest) + tail);
        lemma_reads_through(pre2, rest, tail);
        assert(seq![r] + (rest + more.records) =~= rs + more.records);
    }
}

/// The headers of records begin where the records do.
proof fn lemma_headers_through(pre: Seq<u8>, rs: Seq<RecordModel>)
    requires
        all_fit(rs),
    ensures
        ({
            let b = pre + frames(rs);
            let h = headers(b, pre.len() as int);
            &&& h.headings.len() == rs.len()
            &&& h.end == b.len()
            &&& !h.torn
            &&& forall|i: int|
                0 <= i < rs.len() ==> (#[trigger] h.headings[i]) == (
                    rs[i].seq,
                    pre.len() + offset_of(rs, i),
                )
        }),
    decreases rs.len(),
{
    let b = pre + frames(rs);
    let h = headers(b, pre.len() as int);
    if rs.len() == 0 {
        assert(b =~= pre);
        reveal(head_at);
    } else {
        let r = rs.first();
        let rest = rs.drop_first();
        assert(rs[0] == r);
        assert forall|i: int| 0 <= i < rest.len() implies (#[trigger] rest[i]).payload.len()
            <= MAX_RECORD_LEN by {
            assert(rest[i] == rs[i + 1]);
        }
        let pre2 = pre + frame(r);
        assert(b =~= pre + (header(r.seq, r.payload) + r.payload) + frames(rest));
        assert(b =~= pre2 + frames(rest));
        lemma_frame_len(r);
        lemma_head(pre, r, r.payload, frames(rest));
        lemma_headers_through(pre2, rest);
        let h2 = headers(b, pre2.len() as int);
        assert forall|i: int| 0 <= i < rs.len() implies (#[trigger] h.headings[i]) == (
            rs[i].seq,
            pre.len() + offset_of(rs, i),
        ) by {
            if i == 0 {
                assert(rs.take(0) =~= Seq::<RecordModel>::empty());
            } else {
                assert(h.headings[i] == h2.headings[i - 1]);
                assert(rs.take(i).drop_first() =~= rest.take(i - 1));
                assert(rs.take(i).first() == r);
                assert(offset_of(rs, i) == frame(r).len() + offset_of(rest, i - 1));
            }
        }
    }
}

/// What was written to the journal is read back, record for record.
pub proof fn law_journal_reads_back(rs: Seq<RecordModel>)
    requires
        all_fit(rs),
    ensures
        reading(frames(rs), 0) == (Reading {
            records: rs,
            end: frames(rs).len() as int,
            torn: false,
        }),
{
    reveal(head_at);
    lemma_reads_through(Seq::empty(), rs, Seq::empty());
    assert(Seq::<u8>::empty() + frames(rs) + Seq::<u8>::empty() =~= frames(rs));
    assert(rs + Seq::<RecordModel>::empty() =~= rs);
}

/// A record that was cut off cannot be read.
proof fn lemma_torn_head(pre: Seq<u8>, last: RecordModel, k: int)
    requires
        last.payload.len() <= MAX_RECORD_LEN,
        0 < k < frame(last).len(),
    ensures
        head_at(pre + frame(last).take(k), pre.len() as int) == Head::Torn,
{
    reveal(head_at);
    let b = pre + frame(last).take(k);
    let at = pre.len() as int;
    lemma_frame_len(last);
    if k >= HEADER_LEN {
        let len = last.payload.len() as u32;
        assert(b.subrange(at + 12, at + 16) =~= words::le_bytes(len)) by {
            assert(frame(last).subrange(12, 16) =~= words::le_bytes(len));
            assert(b.subrange(at + 12, at + 16) =~= frame(last).subrange(12, 16));
        }
        words::lemma_word(len, b, at + 12);
    }
}

/// A crash that cuts the last record off loses that record and no other: the journal is
/// read up to where that record began, and is reported torn there.
pub proof fn law_torn_tail_is_found(rs: Seq<RecordModel>, last: RecordModel, k: int)
    requires
        all_fit(rs),
        last.payload.len() <= MAX_RECORD_LEN,
        0 < k < frame(last).len(),
    ensures
        reading(frames(rs) + frame(last).take(k), 0) == (Reading {
            records: rs,
            end: frames(rs).len() as int,
            torn: true,
        }),
{
    let tail = frame(last).take(k);
    lemma_reads_through(Seq::empty(), rs, tail);
    let b = frames(rs) + tail;
    assert(Seq::<u8>::empty() + frames(rs) + tail =~= b);
    lemma_torn_head(frames(rs), last, k);
    assert(rs + Seq::<RecordModel>::empty() =~= rs);
}

/// A record whose bytes no longer have the checksum that was written with them ends the
/// journal: nothing of it or behind it counts, and the records before it do.
pub proof fn law_changed_record_is_found(
    rs: Seq<RecordModel>,
    written: RecordModel,
    found: Seq<u8>,
    rest: Seq<u8>,
)
    requires
        all_fit(rs),
        written.payload.len() <= MAX_RECORD_LEN,
        found.len() == written.payload.len(),
        checksum::crc32_of(found) != checksum::crc32_of(written.payload),
    ensures
        reading(
            frames(rs) + (header(written.seq, written.payload) + found) + rest,
            0,
        ) == (Reading { records: rs, end: frames(rs).len() as int, torn: true }),
{
    let tail = (header(written.seq, written.payload) + found) + rest;
    let b = frames(rs) + (header(written.seq, written.payload) + found) + rest;
    lemma_reads_through(Seq::empty(), rs, tail);
    assert(Seq::<u8>::empty() + frames(rs) + tail =~= b);
    lemma_head(frames(rs), written, found, rest);
    assert(rs + Seq::<RecordModel>::empty() =~= rs);
}

/// A header stands for the same where its bytes and those of its record are moved.
proof fn lemma_head_moved(b: Seq<u8>, w: Seq<u8>, from: int, at: int, e: int)
    requires
        0 <= from <= at,
        e <= b.len(),
        e - from <= w.len(),
        forall|i: int| 0 <= i < e - from ==> #[trigger] w[i] == b[from + i],
        head_at(b, at) matches Head::Record { seq, len, crc } && at + HEADER_LEN + len <= e,
    ensures
        head_at(w, at - from) == head_at(b, at),
        head_at(b, at) matches Head::Record { seq, len, crc } && w.subrange(
            at - from + HEADER_LEN,
            at - from + HEADER_LEN + len,
        ) == b.subrange(at + HEADER_LEN, at + HEADER_LEN + len),
{
    reveal(head_at);
    let x = at - from;
    let len = words::word_at(b, at + 12);
    assert(words::word_at(w, x) == words::word_at(b, at));
    assert(words::word_at(w, x + 4) == words::word_at(b, at + 4));
    assert(words::word_at(w, x + 8) == words::word_at(b, at + 8));
    assert(words::word_at(w, x + 12) == words::word_at(b, at + 12));
    assert(words::word_at(w, x + 16) == words::word_at(b, at + 16));
    assert(w.subrange(x + HEADER_LEN, x + HEADER_LEN + len) =~= b.subrange(
        at + HEADER_LEN,
        at + HEADER_LEN + len,
    ));
}

/// A record stands within the journal.
proof fn lemma_head_within(b: Seq<u8>, at: int)
    ensures
        head_at(b, at) matches Head::Record { seq, len, crc } ==> 0 <= len && at + HEADER_LEN + len
            <= b.len(),
{
    reveal(head_at);
}

/// Records that can be read are read the same where other bytes stand before and behind
/// them.
proof fn lemma_window(b: Seq<u8>, from: int, at: int, tail: Seq<u8>)
    requires
        0 <= from <= at <= b.len(),
    ensures
        ({
            let e = reading(b, at).end;
            let w = b.subrange(from, e) + tail;
            let here = reading(w, at - from);
            let behind = reading(w, e - from);
            &&& at <= e <= b.len()
            &&& here.records == reading(b, at).records + behind.records
            &&& here.end == behind.end
            &&& here.torn == behind.torn
        }),
    decreases b.len() - at,
{
    let e = reading(b, at).end;
    let w = b.subrange(from, e) + tail;
    let behind = reading(w, e - from).records;
    lemma_head_within(b, at);
    match head_at(b, at) {
        Head::Record { seq, len, crc } => {
            let next = at + HEADER_LEN + len;
            let payload = b.subrange(at + HEADER_LEN, next);
            if checksum::crc32_of(payload) == crc {
                lemma_window(b, from, next, tail);
                assert(forall|i: int| 0 <= i < e - from ==> #[trigger] w[i] == b[from + i]);
                lemma_head_moved(b, w, from, at, e);
                let r = RecordModel { seq, payload };
                let rest = reading(b, next).records;
                assert(seq![r] + (rest + behind) =~= (seq![r] + rest) + behind);
            } else {
                assert(reading(b, at).records + behind =~= behind);
            }
        },
        _ => {
            assert(reading(b, at).records + behind =~= behind);
        },
    }
}

/// A journal that is cut where it can no longer be read takes new records, whatever the
/// damage was: they are read back behind the old ones.
pub proof fn law_cut_journal_takes_more(b: Seq<u8>, more: Seq<RecordModel>)
    requires
        all_fit(more),
    ensures
        ({
            let cut = b.take(reading(b, 0).end);
            &&& reading(cut, 0) == (Reading {
                records: reading(b, 0).records,
                end: cut.len() as int,
                torn: false,
            })
            &&& reading(cut + frames(more), 0).records == reading(b, 0).records + more
            &&& !reading(cut + frames(more), 0).torn
        }),
{
    let e = reading(b, 0).end;
    let cut = b.take(e);
    lemma_at_end(cut);
    lemma_at_end(cut + frames(more));
    lemma_window(b, 0, 0, Seq::empty());
    lemma_window(b, 0, 0, frames(more));
    assert(b.subrange(0, e) =~= cut);
    assert(cut + Seq::<u8>::empty() =~= cut);
    assert(reading(b, 0).records + Seq::<RecordModel>::empty() =~= reading(b, 0).records);
    lemma_reads_through(cut, more, Seq::empty());
    assert(cut + frames(more) + Seq::<u8>::empty() =~= cut + frames(more));
    assert(more + Seq::<RecordModel>::empty() =~= more);
}

/// Headers tell of at least the records that can be read, and where those begin.
proof fn lemma_readable_headings(b: Seq<u8>, at: int)
    requires
        0 <= at <= b.len(),
    ensures
        ({
            let h = headers(b, at);
            let r = reading(b, at);
            &&& h.headings.len() >= r.records.len()
            &&& forall|i: int|
                0 <= i < r.records.len() ==> (#[trigger] h.headings[i]).0 == r.records[i].seq
                    && reading(b, h.headings[i].1).records == r.records.skip(i)
            &&& h.headings.len() > r.records.len() ==> reading(
                b,
                h.headings[r.records.len() as int].1,
            ).records.len() == 0
            &&& reading(b, h.end).records.len() == 0
        }),
    decreases b.len() - at,
{
    reveal(head_at);
    let h = headers(b, at);
    let r = reading(b, at);
    match head_at(b, at) {
        Head::Record { seq, len, crc } => {
            let next = at + HEADER_LEN + len;
            lemma_readable_headings(b, next);
            let hn = headers(b, next).headings;
            let rn = reading(b, next).records;
            assert(h.headings[0] == (seq, at));
            assert forall|i: int| 0 <= i < r.records.len() implies (
            #[trigger] h.headings[i]).0 == r.records[i].seq && reading(
                b,
                h.headings[i].1,
            ).records == r.records.skip(i) by {
                if i == 0 {
                    assert(r.records.skip(0) =~= r.records);
                } else {
                    assert(h.headings[i] == hn[i - 1]);
                    assert(r.records[i] == rn[i - 1]);
                    assert(r.records.skip(i) =~= rn.skip(i - 1));
                }
            }
            if r.records.len() > 0 && h.headings.len() > r.records.len() {
                assert(h.headings[r.records.len() as int] == hn[rn.len() as int]);
            }
        },
        _ => {},
    }
}

/// Behind the last byte there is nothing to read.
proof fn lemma_at_end(b: Seq<u8>)
    ensures
        reading(b, b.len() as int) == (Reading {
            records: Seq::empty(),
            end: b.len() as int,
            torn: false,
        }),
{
    reveal(head_at);
}

/// Where a compaction begins: at a record or behind the last one.
proof fn lemma_compaction_start(b: Seq<u8>, seq: u64)
    ensures
        ({
            let h = headers(b, 0);
            0 <= first_above(h.headings, seq, h.end) <= b.len()
        }),
{
    let h = headers(b, 0);
    let hs = h.headings;
    lemma_headings_within(b, 0);
    let ps = placeholders(hs);
    lemma_first_above(hs, ps, seq, h.end);
    let k = count_up_to(ps, seq);
    if k < ps.len() {
        assert(0 <= hs[k].1);
    }
}

/// Records with the sequence numbers of some headers.
spec fn placeholders(hs: Seq<(u64, int)>) -> Seq<RecordModel> {
    Seq::new(hs.len(), |i: int| RecordModel { seq: hs[i].0, payload: Seq::empty() })
}

/// The sequence numbers of headers increase.
pub open spec fn headings_increase(hs: Seq<(u64, int)>) -> bool {
    forall|i: int, j: int|
        0 <= i < j < hs.len() ==> (#[trigger] hs[i]).0 < (#[trigger] hs[j]).0
}

/// Where only the last record is damaged, what can be read from the first record above a
/// sequence number on is what can be read above it.
#[verifier::spinoff_prover]
proof fn lemma_read_above(b: Seq<u8>, seq: u64)
    requires
        headers(b, 0).headings.len() <= reading(b, 0).records.len() + 1,
        headings_increase(headers(b, 0).headings),
    ensures
        ({
            let h = headers(b, 0);
            reading(b, first_above(h.headings, seq, h.end)).records == above(
                reading(b, 0).records,
                seq,
            )
        }),
{
    let h = headers(b, 0);
    let hs = h.headings;
    let start = first_above(hs, seq, h.end);
    let rs = reading(b, 0).records;
    let ps = placeholders(hs);
    lemma_first_above(hs, ps, seq, h.end);
    let k = count_up_to(ps, seq);
    lemma_readable_headings(b, 0);
    assert forall|i: int, j: int| 0 <= i < j < ps.len() implies (#[trigger] ps[i]).seq < (
    #[trigger] ps[j]).seq by {
        assert(hs[i].0 < hs[j].0);
    }
    lemma_count(ps, seq);
    let n = rs.len() as int;
    let m = if k < n {
        k
    } else {
        n
    };
    assert forall|i: int| 0 <= i < n implies (#[trigger] rs[i]).seq == ps[i].seq by {
        assert(hs[i].0 == rs[i].seq);
    }
    lemma_above_is_suffix(rs, seq, m);
    if k < n {
        assert(reading(b, hs[k].1).records == rs.skip(k));
    } else {
        assert(above(rs, seq) =~= Seq::<RecordModel>::empty());
        assert(reading(b, start).records =~= Seq::<RecordModel>::empty());
    }
}

/// What is left of a journal after a compaction can be read to its end, and what is read
/// is what could be read before from the first record on that stays. Where only the last
/// record is damaged, those are the records above the sequence number.
#[verifier::spinoff_prover]
pub proof fn law_compaction_cuts_damage(b: Seq<u8>, seq: u64)
    ensures
        ({
            let h = headers(b, 0);
            let start = first_above(h.headings, seq, h.end);
            let left = reading(compacted(b, seq), 0);
            &&& left.records == reading(b, start).records
            &&& !left.torn
            &&& h.headings.len() <= reading(b, 0).records.len() + 1 && headings_increase(
                h.headings,
            ) ==> left.records == above(reading(b, 0).records, seq)
        }),
{
    let h = headers(b, 0);
    let start = first_above(h.headings, seq, h.end);
    let c = compacted(b, seq);
    lemma_compaction_start(b, seq);
    lemma_window(b, start, start, Seq::empty());
    assert(b.subrange(start, reading(b, start).end) + Seq::<u8>::empty() =~= c);
    lemma_at_end(c);
    assert(reading(b, start).records + Seq::<RecordModel>::empty() =~= reading(b, start).records);
    if h.headings.len() <= reading(b, 0).records.len() + 1 && headings_increase(h.headings) {
        lemma_read_above(b, seq);
    }
}

/// Sequence numbers increase.
pub open spec fn increasing(rs: Seq<RecordModel>) -> bool {
    forall|i: int, j: int|
        0 <= i < j < rs.len() ==> (#[trigger] rs[i]).seq < (#[trigger] rs[j]).seq
}

/// How many of some records have a sequence number up to another.
spec fn count_up_to(rs: Seq<RecordModel>, seq: u64) -> int
    decreases rs.len(),
{
    if rs.len() == 0 || rs.first().seq > seq {
        0
    } else {
        1 + count_up_to(rs.drop_first(), seq)
    }
}

proof fn lemma_count(rs: Seq<RecordModel>, seq: u64)
    requires
        increasing(rs),
    ensures
        0 <= count_up_to(rs, seq) <= rs.len(),
        forall|i: int| 0 <= i < count_up_to(rs, seq) ==> (#[trigger] rs[i]).seq <= seq,
        forall|i: int| count_up_to(rs, seq) <= i < rs.len() ==> (#[trigger] rs[i]).seq > seq,
    decreases rs.len(),
{
    if rs.len() > 0 {
        if rs.first().seq > seq {
            assert forall|i: int| 0 <= i < rs.len() implies (#[trigger] rs[i]).seq > seq by {
                if i > 0 {
                    assert(rs[0].seq < rs[i].seq);
                }
            }
        } else {
            let rest = rs.drop_first();
            assert forall|i: int, j: int| 0 <= i < j < rest.len() implies (
            #[trigger] rest[i]).seq < (#[trigger] rest[j]).seq by {
                assert(rest[i] == rs[i + 1] && rest[j] == rs[j + 1]);
            }
            lemma_count(rest, seq);
            let k = count_up_to(rest, seq);
            assert forall|i: int| 0 <= i < k + 1 implies (#[trigger] rs[i]).seq <= seq by {
                if i > 0 {
                    assert(rest[i - 1] == rs[i]);
                }
            }
            assert forall|i: int| k + 1 <= i < rs.len() implies (#[trigger] rs[i]).seq > seq by {
                assert(rest[i - 1] == rs[i]);
            }
        }
    }
}

proof fn lemma_above_is_suffix(rs: Seq<RecordModel>, seq: u64, k: int)
    requires
        0 <= k <= rs.len(),
        forall|i: int| 0 <= i < k ==> (#[trigger] rs[i]).seq <= seq,
        forall|i: int| k <= i < rs.len() ==> (#[trigger] rs[i]).seq > seq,
    ensures
        above(rs, seq) == rs.skip(k),
    decreases rs.len(),
{
    if rs.len() == 0 {
        assert(above(rs, seq) =~= rs.skip(k));
    } else {
        let less = rs.drop_last();
        assert(rs[rs.len() - 1] == rs.last());
        assert forall|i: int| 0 <= i < less.len() implies #[trigger] less[i] == rs[i] by {}
        if k == rs.len() {
            lemma_above_is_suffix(less, seq, k - 1);
            assert(above(rs, seq) =~= rs.skip(k));
        } else {
            lemma_above_is_suffix(less, seq, k);
            assert(above(rs, seq) =~= rs.skip(k));
        }
    }
}

proof fn lemma_first_above(headings: Seq<(u64, int)>, rs: Seq<RecordModel>, seq: u64, end: int)
    requires
        headings.len() == rs.len(),
        forall|i: int| 0 <= i < rs.len() ==> (#[trigger] headings[i]).0 == rs[i].seq,
    ensures
        first_above(headings, seq, end) == (if count_up_to(rs, seq) < rs.len() {
            headings[count_up_to(rs, seq)].1
        } else {
            end
        }),
        0 <= count_up_to(rs, seq) <= rs.len(),
    decreases rs.len(),
{
    if rs.len() > 0 {
        assert(headings[0].0 == rs[0].seq);
        if rs.first().seq <= seq {
            let hr = headings.drop_first();
            let rr = rs.drop_first();
            assert forall|i: int| 0 <= i < rr.len() implies (#[trigger] hr[i]).0 == rr[i].seq by {
                assert(hr[i] == headings[i + 1] && rr[i] == rs[i + 1]);
            }
            lemma_first_above(hr, rr, seq, end);
        }
    }
}

/// Dropping the records up to a sequence number keeps the others as they are: what is
/// read afterwards is what would have been read above that number before.
#[verifier::spinoff_prover]
pub proof fn law_compaction_keeps_the_rest(rs: Seq<RecordModel>, seq: u64)
    requires
        all_fit(rs),
        increasing(rs),
    ensures
        reading(compacted(frames(rs), seq), 0).records == above(
            reading(frames(rs), 0).records,
            seq,
        ),
        !reading(compacted(frames(rs), seq), 0).torn,
{
    let b = frames(rs);
    lemma_headers_through(Seq::empty(), rs);
    assert(Seq::<u8>::empty() + b =~= b);
    law_journal_reads_back(rs);
    lemma_count(rs, seq);
    let k = count_up_to(rs, seq);
    let h = headers(b, 0);
    lemma_first_above(h.headings, rs, seq, h.end);
    lemma_above_is_suffix(rs, seq, k);
    let kept = rs.skip(k);
    assert(rs =~= rs.take(k) + kept);
    lemma_frames_join(rs.take(k), kept);
    if k == rs.len() {
        assert(rs.take(k) =~= rs);
        assert(kept =~= Seq::<RecordModel>::empty());
    }
    assert(first_above(h.headings, seq, h.end) == offset_of(rs, k)) by {
        if k < rs.len() {
            assert(h.headings[k].1 == offset_of(rs, k));
        }
    }
    assert forall|i: int| 0 <= i < kept.len() implies (#[trigger] kept[i]).payload.len()
        <= MAX_RECORD_LEN by {
        assert(kept[i] == rs[k + i]);
    }
    law_journal_reads_back(kept);
    lemma_reads_through(frames(rs.take(k)), kept, Seq::empty());
    assert(frames(rs.take(k)) + frames(kept) + Seq::<u8>::empty() =~= b);
    lemma_at_end(b);
    assert(compacted(b, seq) =~= frames(kept));
}

/// A journal goes on behind its last record, with a number that none of its records has. A new
/// journal begins with one.
pub proof fn law_numbers_are_given_once(rs: Seq<RecordModel>, i: int)
    requires
        all_fit(rs),
        increasing(rs),
    ensures
        rs.len() == 0 ==> following(frames(rs)) == 1,
        rs.len() > 0 ==> following(frames(rs)) == rs.last().seq + 1,
        0 <= i < rs.len() ==> rs[i].seq < following(frames(rs)),
{
    lemma_headers_through(Seq::empty(), rs);
    assert(Seq::<u8>::empty() + frames(rs) =~= frames(rs));
    if 0 <= i < rs.len() - 1 {
        assert(rs[i].seq < rs[rs.len() - 1].seq);
    }
}

/// Commands are made durable one by one, or as soon as so many of them wait as the policy says,
/// or never. Where commands are due, more of them are.
pub proof fn law_commands_become_durable(policy: SyncPolicy, count: int, more: int, n: usize)
    requires
        0 < count <= more,
    ensures
        due(policy, count) ==> due(policy, more),
        due(SyncPolicy::EveryCommand, count),
        !due(SyncPolicy::Never, count),
        n > 0 ==> due(SyncPolicy::EveryN(n), n as int),
        count < n ==> !due(SyncPolicy::EveryN(n), count),
{
}

} // verus!
