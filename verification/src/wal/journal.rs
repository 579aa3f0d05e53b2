//! Frames of the journal. Each record is its length, a checksum of its bytes,
//! and the bytes: four bytes, four bytes, and as many as the length says, both
//! numbers with the lowest byte first.
use vstd::prelude::*;
use vstd::slice::{slice_subrange, slice_to_vec};
use vstd::string::StringExecFns;

use crate::exchange::checksum;
use crate::text;
use crate::types::ids::SeqNo;

verus! {

/// The longest record that a reader takes.
pub const MAX_RECORD: usize = 1_048_576;

/// `crc32fast::hash`: the CRC-32 of the bytes with the polynomial of IEEE 802.3, lowest bit
/// first.
#[verifier::external_body]
fn crc32(data: &[u8]) -> (r: u32)
    ensures
        r == checksum::crc32_of(data@),
{
    crc32fast::hash(data)
}

/// The bytes of a word, lowest first.
pub open spec fn le_bytes(x: u32) -> Seq<u8> {
    seq![
        (x % 256) as u8,
        (x / 256 % 256) as u8,
        (x / 65_536 % 256) as u8,
        (x / 16_777_216) as u8,
    ]
}

/// The word that four bytes stand for, lowest first.
pub open spec fn word_at(b: Seq<u8>, at: int) -> int {
    b[at] + 256 * b[at + 1] + 65_536 * b[at + 2] + 16_777_216 * b[at + 3]
}

/// A record in its frame. The length field has room for 32 bits.
pub open spec fn frame(payload: Seq<u8>) -> Seq<u8> {
    le_bytes(#[verifier::truncate] (payload.len() as u32)) + le_bytes(checksum::crc32_of(payload)) + payload
}

/// Records in their frames, one after the other.
pub open spec fn frames(payloads: Seq<Seq<u8>>) -> Seq<u8>
    decreases payloads.len(),
{
    if payloads.len() == 0 {
        Seq::empty()
    } else {
        frames(payloads.drop_last()) + frame(payloads.last())
    }
}

/// What is wrong with a record.
#[derive(Debug, Clone, Copy, PartialEq, Eq, Structural)]
pub enum Fault {
    /// Its length is more than a reader takes.
    TooLong { len: u32 },
    /// Its bytes do not have the checksum that was written with them.
    CrcMismatch { expected: u32, actual: u32 },
}

/// Why a journal cannot be read on.
#[derive(Debug, Clone, Copy, PartialEq, Eq, Structural)]
pub enum WalError {
    /// A record that is complete but wrong.
    Corrupt { offset: u64, fault: Fault },
}

impl Fault {
    pub open spec fn text(self) -> Seq<char> {
        match self {
            Fault::TooLong { len } => "record length "@ + text::decimal(len as int)
                + " exceeds 1 MiB cap"@,
            Fault::CrcMismatch { expected, actual } => "crc mismatch: expected 0x"@ + text::hex(
                expected as int,
                8,
            ) + ", got 0x"@ + text::hex(actual as int, 8),
        }
    }

    /// The fault in words.
    pub fn message(&self) -> (r: String)
        ensures
            r@ == self.text(),
    {
        match self {
            Fault::TooLong { len } => {
                let mut out: String = String::from_str("record length ");
                text::push_decimal(&mut out, *len as u128);
                out.append(" exceeds 1 MiB cap");
                out
            },
            Fault::CrcMismatch { expected, actual } => {
                let mut out: String = String::from_str("crc mismatch: expected 0x");
                text::push_hex(&mut out, *expected as u64, 8);
                out.append(", got 0x");
                text::push_hex(&mut out, *actual as u64, 8);
                out
            },
        }
    }
}

impl WalError {
    pub open spec fn text(self) -> Seq<char> {
        match self {
            WalError::Corrupt { offset, fault } => "corrupt record at offset "@ + text::decimal(
                offset as int,
            ) + ": "@ + fault.text(),
        }
    }

    /// The error in words.
    pub fn message(&self) -> (r: String)
        ensures
            r@ == self.text(),
    {
        match self {
            WalError::Corrupt { offset, fault } => {
                let mut out: String = String::from_str("corrupt record at offset ");
                text::push_decimal(&mut out, *offset as u128);
                out.append(": ");
                let rest: String = fault.message();
                out.append(rest.as_str());
                out
            },
        }
    }
}

pub(crate) fn push_word(out: &mut Vec<u8>, x: u32)
    ensures
        final(out)@ == old(out)@ + le_bytes(x),
{
    out.push((x % 256) as u8);
    out.push((x / 256 % 256) as u8);
    out.push((x / 65_536 % 256) as u8);
    out.push((x / 16_777_216) as u8);
    assert(out@ =~= old(out)@ + le_bytes(x));
}

/// Writes a record in its frame.
pub fn push_frame(out: &mut Vec<u8>, payload: &[u8])
    ensures
        final(out)@ == old(out)@ + frame(payload@),
{
    let len: u32 = #[verifier::truncate] (payload.len() as u32);
    push_word(out, len);
    push_word(out, crc32(payload));
    let mut i: usize = 0;
    let ghost head = out@;
    while i < payload.len()
        invariant
            i <= payload@.len(),
            out@ == head + payload@.subrange(0, i as int),
        decreases payload.len() - i,
    {
        out.push(payload[i]);
        assert(payload@.subrange(0, i + 1) =~= payload@.subrange(0, i as int).push(
            payload@[i as int],
        ));
        i = i + 1;
        assert(out@ =~= head + payload@.subrange(0, i as int));
    }
    assert(payload@.subrange(0, i as int) =~= payload@);
    assert(out@ =~= old(out)@ + frame(payload@));
}

/// The writing end of a journal: what was appended since the last sync, and how
/// far the journal is written and synced.
pub struct WalWriter {
    pending: Vec<u8>,
    last_written_seq: SeqNo,
    last_synced_seq: SeqNo,
}

impl WalWriter {
    /// The bytes that are still to be written to the file.
    pub closed spec fn waiting(&self) -> Seq<u8> {
        self.pending@
    }

    pub closed spec fn written(&self) -> SeqNo {
        self.last_written_seq
    }

    pub closed spec fn synced(&self) -> SeqNo {
        self.last_synced_seq
    }

    pub fn new() -> (r: WalWriter)
        ensures
            r.waiting().len() == 0,
            r.written() == SeqNo(0),
            r.synced() == SeqNo(0),
    {
        WalWriter { pending: Vec::new(), last_written_seq: SeqNo(0), last_synced_seq: SeqNo(0) }
    }

    pub fn last_written_seq(&self) -> (r: SeqNo)
        ensures
            r == self.written(),
    {
        self.last_written_seq
    }

    pub fn last_synced_seq(&self) -> (r: SeqNo)
        ensures
            r == self.synced(),
    {
        self.last_synced_seq
    }

    /// Appends the record of a command.
    pub fn append(&mut self, seq_no: SeqNo, payload: &[u8])
        ensures
            final(self).waiting() == old(self).waiting() + frame(payload@),
            final(self).written() == seq_no,
            final(self).synced() == old(self).synced(),
    {
        push_frame(&mut self.pending, payload);
        self.last_written_seq = seq_no;
    }

    /// The bytes that are still to be written to the file.
    pub fn pending(&self) -> (r: &[u8])
        ensures
            r@ == self.waiting(),
    {
        self.pending.as_slice()
    }

    /// Notes that everything was written to the file and made durable.
    pub fn mark_synced(&mut self)
        ensures
            final(self).waiting().len() == 0,
            final(self).written() == old(self).written(),
            final(self).synced() == old(self).written(),
    {
        self.pending = Vec::new();
        self.last_synced_seq = self.last_written_seq;
    }
}

/// What a reader finds at a place: nothing more, where the bytes end before the
/// record does; a record and the place after it; a record that is longer than
/// allowed; or one that does not have its checksum, and the place after it.
pub enum Found {
    End,
    Record { payload: Seq<u8>, next: int },
    TooLong { len: u32 },
    Mismatch { expected: u32, actual: u32, next: int },
}

/// The record at a place.
#[verifier::opaque]
pub open spec fn record_at(b: Seq<u8>, at: int) -> Found {
    if at + 4 > b.len() {
        Found::End
    } else {
        let len = word_at(b, at);
        if len > MAX_RECORD {
            Found::TooLong { len: len as u32 }
        } else if at + 8 + len > b.len() {
            Found::End
        } else {
            let payload = b.subrange(at + 8, at + 8 + len);
            let expected = word_at(b, at + 4) as u32;
            let next = at + 8 + len;
            if checksum::crc32_of(payload) == expected {
                Found::Record { payload, next }
            } else {
                Found::Mismatch { expected, actual: checksum::crc32_of(payload), next }
            }
        }
    }
}

/// What reading a journal from a place gives: its records up to the end or the
/// first fault, and that fault with the place that is reported for it. A record
/// that is too long is reported where it begins, one without its checksum where
/// it ends.
pub open spec fn scan(b: Seq<u8>, at: int) -> (Seq<Seq<u8>>, Option<(int, Fault)>)
    decreases b.len() - at,
{
    proof {
        reveal(record_at);
    }
    match record_at(b, at) {
        Found::End => (Seq::empty(), None),
        Found::TooLong { len } => (Seq::empty(), Some((at, Fault::TooLong { len }))),
        Found::Mismatch { expected, actual, next } => (
            Seq::empty(),
            Some((next, Fault::CrcMismatch { expected, actual })),
        ),
        Found::Record { payload, next } => {
            let (more, end) = scan(b, next);
            (seq![payload] + more, end)
        },
    }
}

/// Where the records end that a reader gets from a place on.
pub open spec fn good_end(b: Seq<u8>, at: int) -> int
    decreases b.len() - at,
{
    proof {
        reveal(record_at);
    }
    match record_at(b, at) {
        Found::Record { payload, next } => good_end(b, next),
        _ => at,
    }
}

pub(crate) fn word_from(b: &[u8], at: usize) -> (r: u32)
    requires
        at + 4 <= b@.len(),
    ensures
        r == word_at(b@, at as int),
{
    b[at] as u32 + 256 * (b[at + 1] as u32) + 65_536 * (b[at + 2] as u32) + 16_777_216 * (b[at
        + 3] as u32)
}

/// The reading end of a journal.
pub struct WalReader {
    bytes: Vec<u8>,
    at: usize,
    offset: usize,
}

impl WalReader {
    /// The bytes of the journal.
    pub closed spec fn journal(&self) -> Seq<u8> {
        self.bytes@
    }

    /// Where the next record begins.
    pub closed spec fn position(&self) -> int {
        self.at as int
    }

    /// Where the last record ended that was complete.
    pub closed spec fn reported(&self) -> int {
        self.offset as int
    }

    pub closed spec fn wf(&self) -> bool {
        self.offset <= self.at <= self.bytes@.len()
    }

    /// A reader at the beginning of a journal.
    pub fn new(bytes: Vec<u8>) -> (r: WalReader)
        ensures
            r.wf(),
            r.journal() == bytes@,
            r.position() == 0,
            r.reported() == 0,
    {
        WalReader { bytes, at: 0, offset: 0 }
    }

    /// The bytes of the next record, or none at the end. A record that was cut
    /// off at the end of the journal, as a crash leaves it, is the end. One that
    /// is complete but wrong is an error; reading may go on behind it.
    pub fn read_next(&mut self) -> (r: Result<Option<Vec<u8>>, WalError>)
        requires
            old(self).wf(),
        ensures
            final(self).wf(),
            final(self).journal() == old(self).journal(),
            match record_at(old(self).journal(), old(self).position()) {
                Found::End => {
                    &&& r matches Ok(p) && p.is_none()
                    &&& final(self).position() == old(self).journal().len()
                    &&& final(self).reported() == old(self).reported()
                },
                Found::Record { payload, next } => {
                    &&& r matches Ok(p) && p.is_some() && p.unwrap()@ == payload
                    &&& final(self).position() == next
                    &&& final(self).reported() == old(self).reported() + next
                        - old(self).position()
                },
                Found::TooLong { len } => {
                    &&& r matches Err(e) && e == (WalError::Corrupt {
                        offset: old(self).reported() as u64,
                        fault: Fault::TooLong { len },
                    })
                    &&& final(self).position() == old(self).position() + 4
                    &&& final(self).reported() == old(self).reported()
                },
                Found::Mismatch { expected, actual, next } => {
                    &&& r matches Err(e) && e == (WalError::Corrupt {
                        offset: final(self).reported() as u64,
                        fault: Fault::CrcMismatch { expected, actual },
                    })
                    &&& final(self).position() == next
                    &&& final(self).reported() == old(self).reported() + next
                        - old(self).position()
                },
            },
    {
        proof {
            reveal(record_at);
        }
        let n: usize = self.bytes.len();
        let at: usize = self.at;
        if n - at < 4 {
            self.at = n;
            return Ok(None);
        }
        let len: u32 = word_from(self.bytes.as_slice(), at);
        if len as usize > MAX_RECORD {
            self.at = at + 4;
            return Err(
                WalError::Corrupt { offset: self.offset as u64, fault: Fault::TooLong { len } },
            );
        }
        if n - at < 8 || n - at - 8 < len as usize {
            self.at = n;
            return Ok(None);
        }
        let expected: u32 = word_from(self.bytes.as_slice(), at + 4);
        let next: usize = at + 8 + len as usize;
        let data: &[u8] = slice_subrange(self.bytes.as_slice(), at + 8, next);
        let actual: u32 = crc32(data);
        let payload: Vec<u8> = slice_to_vec(data);
        self.at = next;
        self.offset = self.offset + 8 + len as usize;
        if actual != expected {
            return Err(
                WalError::Corrupt {
                    offset: self.offset as u64,
                    fault: Fault::CrcMismatch { expected, actual },
                },
            );
        }
        Ok(Some(payload))
    }
}

/// Reads a whole journal.
pub fn read_all(bytes: Vec<u8>) -> (r: Result<Vec<Vec<u8>>, WalError>)
    ensures
        match scan(bytes@, 0).1 {
            None => {
                &&& r is Ok
                &&& r->Ok_0@.len() == scan(bytes@, 0).0.len()
                &&& forall|i: int|
                    0 <= i < r->Ok_0@.len() ==> (#[trigger] r->Ok_0@[i])@ == scan(bytes@, 0).0[i]
            },
            Some((offset, fault)) => r == Err::<Vec<Vec<u8>>, WalError>(
                WalError::Corrupt { offset: offset as u64, fault },
            ),
        },
{
    let ghost b = bytes@;
    let mut reader = WalReader::new(bytes);
    let mut out: Vec<Vec<u8>> = Vec::new();
    loop
        invariant_except_break
            b == bytes@,
            reader.wf(),
            reader.journal() == b,
            reader.position() == reader.reported(),
            scan(b, 0).1 == scan(b, reader.position()).1,
            scan(b, 0).0.len() == out@.len() + scan(b, reader.position()).0.len(),
            forall|i: int| 0 <= i < out@.len() ==> (#[trigger] out@[i])@ == scan(b, 0).0[i],
            forall|i: int|
                0 <= i < scan(b, reader.position()).0.len() ==> scan(b, 0).0[out@.len() + i]
                    == #[trigger] scan(b, reader.position()).0[i],
        ensures
            scan(b, 0).1.is_none(),
            scan(b, 0).0.len() == out@.len(),
            forall|i: int| 0 <= i < out@.len() ==> (#[trigger] out@[i])@ == scan(b, 0).0[i],
        decreases b.len() - reader.position(),
    {
        let ghost at = reader.position();
        let ghost rest = scan(b, at).0;
        proof {
            reveal(record_at);
        }
        match reader.read_next() {
            Err(e) => {
                return Err(e);
            },
            Ok(None) => {
                break;
            },
            Ok(Some(payload)) => {
                let ghost tail = scan(b, reader.position()).0;
                assert(rest == seq![payload@] + tail);
                assert(rest[0] == payload@);
                assert(scan(b, 0).0[out@.len() as int] == rest[0]);
                assert forall|i: int| 0 <= i < tail.len() implies scan(b, 0).0[out@.len() + 1 + i]
                    == #[trigger] tail[i] by {
                    assert(rest[i + 1] == tail[i]);
                    assert(scan(b, 0).0[out@.len() + (i + 1)] == rest[i + 1]);
                }
                out.push(payload);
            },
        }
    }
    Ok(out)
}

/// How many bytes of a journal are complete records. What a crash left behind them is to
/// be cut off before anything is appended.
pub fn valid_length(b: &[u8]) -> (r: usize)
    ensures
        r == good_end(b@, 0),
        r <= b@.len(),
{
    proof {
        reveal(record_at);
    }
    let n: usize = b.len();
    let mut at: usize = 0;
    loop
        invariant
            at <= n == b@.len(),
            good_end(b@, 0) == good_end(b@, at as int),
        decreases n - at,
    {
        proof {
            reveal(record_at);
        }
        if n - at < 8 {
            return at;
        }
        let len: usize = word_from(b, at) as usize;
        if len > MAX_RECORD || n - at - 8 < len {
            return at;
        }
        let next: usize = at + 8 + len;
        if crc32(slice_subrange(b, at + 8, next)) != word_from(b, at + 4) {
            return at;
        }
        at = next;
    }
}

/// The bytes of a word stand for the word.
pub proof fn lemma_word(x: u32, b: Seq<u8>, at: int)
    requires
        0 <= at,
        at + 4 <= b.len(),
        b.subrange(at, at + 4) == le_bytes(x),
    ensures
        word_at(b, at) == x,
{
    let s = b.subrange(at, at + 4);
    assert(s[0] == b[at] && s[1] == b[at + 1] && s[2] == b[at + 2] && s[3] == b[at + 3]);
    assert((x % 256) + 256 * (x / 256 % 256) + 65_536 * (x / 65_536 % 256) + 16_777_216 * (x
        / 16_777_216) == x && x / 16_777_216 < 256) by (bit_vector);
}

/// What a reader finds where bytes stand in a frame, whose checksum is that of
/// other bytes or of these.
proof fn lemma_framed(pre: Seq<u8>, x: Seq<u8>, y: Seq<u8>, rest: Seq<u8>)
    requires
        x.len() == y.len(),
        x.len() <= MAX_RECORD,
    ensures
        ({
            let head = le_bytes(x.len() as u32) + le_bytes(checksum::crc32_of(x));
            let b = pre + (head + y) + rest;
            let next = (pre.len() + 8 + x.len()) as int;
            record_at(b, pre.len() as int) == (if checksum::crc32_of(y) == checksum::crc32_of(x) {
                Found::Record { payload: y, next }
            } else {
                Found::Mismatch { expected: checksum::crc32_of(x), actual: checksum::crc32_of(y), next }
            })
        }),
{
    reveal(record_at);
    let len = x.len() as u32;
    let head = le_bytes(len) + le_bytes(checksum::crc32_of(x));
    let b = pre + (head + y) + rest;
    let at = pre.len() as int;
    assert(b.subrange(at, at + 4) =~= le_bytes(len));
    assert(b.subrange(at + 4, at + 8) =~= le_bytes(checksum::crc32_of(x)));
    lemma_word(len, b, at);
    lemma_word(checksum::crc32_of(x), b, at + 4);
    assert(b.subrange(at + 8, at + 8 + len) =~= y);
}

/// The first of some records stands first.
proof fn lemma_frames_front(payloads: Seq<Seq<u8>>)
    requires
        payloads.len() > 0,
    ensures
        frames(payloads) == frame(payloads[0]) + frames(payloads.drop_first()),
    decreases payloads.len(),
{
    let rest = payloads.drop_first();
    if payloads.len() == 1 {
        assert(payloads.drop_last() =~= Seq::<Seq<u8>>::empty());
        assert(rest =~= Seq::<Seq<u8>>::empty());
        assert(frames(payloads) =~= frame(payloads[0]) + frames(rest));
    } else {
        let most = payloads.drop_last();
        lemma_frames_front(most);
        assert(most.drop_first() =~= rest.drop_last());
        assert(rest.last() == payloads.last());
        assert(frames(payloads) =~= frame(payloads[0]) + frames(rest));
    }
}

proof fn lemma_regroup(a: Seq<u8>, b: Seq<u8>, c: Seq<u8>, d: Seq<u8>)
    ensures
        a + (b + c) + d == (a + b) + c + d,
        a + (b + c) + d == a + b + (c + d),
{
    assert(a + (b + c) + d =~= (a + b) + c + d);
    assert(a + (b + c) + d =~= a + b + (c + d));
}

/// A reader gets the records that stand before a place, and then what stands
/// there.
proof fn lemma_reads_through(pre: Seq<u8>, payloads: Seq<Seq<u8>>, tail: Seq<u8>)
    requires
        forall|i: int| 0 <= i < payloads.len() ==> (#[trigger] payloads[i]).len() <= MAX_RECORD,
    ensures
        ({
            let b = pre + frames(payloads) + tail;
            let (records, end) = scan(b, pre.len() as int);
            let (more, last) = scan(b, (pre.len() + frames(payloads).len()) as int);
            records == payloads + more && end == last
        }),
    decreases payloads.len(),
{
    let b = pre + frames(payloads) + tail;
    if payloads.len() == 0 {
        assert(payloads + scan(b, pre.len() as int).0 =~= scan(b, pre.len() as int).0);
    } else {
        let x = payloads[0];
        let rest = payloads.drop_first();
        assert(x.len() <= MAX_RECORD);
        assert forall|i: int| 0 <= i < rest.len() implies (#[trigger] rest[i]).len()
            <= MAX_RECORD by {
            assert(rest[i] == payloads[i + 1]);
        }
        lemma_frames_front(payloads);
        let pre2 = pre + frame(x);
        lemma_regroup(pre, frame(x), frames(rest), tail);
        assert(frame(x).len() == 8 + x.len());
        assert(record_at(b, pre.len() as int) == Found::Record {
            payload: x,
            next: pre2.len() as int,
        }) by {
            lemma_framed(pre, x, x, frames(rest) + tail);
        }
        lemma_reads_through(pre2, rest, tail);
        let more = scan(b, (pre.len() + frames(payloads).len()) as int).0;
        assert(seq![x] + (rest + more) =~= payloads + more);
    }
}

/// What was appended to a journal is read back, record for record.
pub proof fn law_journal_reads_back(payloads: Seq<Seq<u8>>)
    requires
        forall|i: int| 0 <= i < payloads.len() ==> (#[trigger] payloads[i]).len() <= MAX_RECORD,
    ensures
        scan(frames(payloads), 0) == (payloads, None::<(int, Fault)>),
{
    reveal(record_at);
    lemma_reads_through(Seq::empty(), payloads, Seq::empty());
    let b = Seq::<u8>::empty() + frames(payloads) + Seq::empty();
    assert(b =~= frames(payloads));
    assert(payloads + Seq::<Seq<u8>>::empty() =~= payloads);
}

/// A crash that cuts the last record off loses that record and no other: the
/// cut is the end of the journal.
pub proof fn law_torn_tail_is_the_end(payloads: Seq<Seq<u8>>, last: Seq<u8>, k: int)
    requires
        forall|i: int| 0 <= i < payloads.len() ==> (#[trigger] payloads[i]).len() <= MAX_RECORD,
        last.len() <= MAX_RECORD,
        0 <= k < frame(last).len(),
    ensures
        scan(frames(payloads) + frame(last).subrange(0, k), 0) == (
            payloads,
            None::<(int, Fault)>,
        ),
{
    reveal(record_at);
    let tail = frame(last).subrange(0, k);
    lemma_reads_through(Seq::empty(), payloads, tail);
    let b = Seq::<u8>::empty() + frames(payloads) + tail;
    assert(b =~= frames(payloads) + tail);
    let at = frames(payloads).len() as int;
    if k >= 4 {
        let len = last.len() as u32;
        assert(b.subrange(at, at + 4) =~= le_bytes(len)) by {
            assert(frame(last).subrange(0, 4) =~= le_bytes(len));
            assert(b.subrange(at, at + 4) =~= frame(last).subrange(0, 4));
        }
        lemma_word(len, b, at);
    }
    assert(payloads + Seq::<Seq<u8>>::empty() =~= payloads);
}

/// The part of a journal that its records fill is read the same with other bytes behind
/// it.
proof fn lemma_good_part(b: Seq<u8>, at: int, tail: Seq<u8>)
    requires
        0 <= at <= b.len(),
    ensures
        ({
            let e = good_end(b, at);
            let w = b.take(e) + tail;
            &&& at <= e <= b.len()
            &&& scan(w, at).0 == scan(b, at).0 + scan(w, e).0
            &&& scan(w, at).1 == scan(w, e).1
        }),
    decreases b.len() - at,
{
    reveal(record_at);
    let e = good_end(b, at);
    let w = b.take(e) + tail;
    let behind = scan(w, e).0;
    match record_at(b, at) {
        Found::Record { payload, next } => {
            lemma_good_part(b, next, tail);
            assert(forall|i: int| 0 <= i < e ==> #[trigger] w[i] == b[i]);
            assert(word_at(w, at) == word_at(b, at));
            assert(word_at(w, at + 4) == word_at(b, at + 4));
            assert(w.subrange(at + 8, next) =~= payload);
            assert(record_at(w, at) == record_at(b, at));
            let more = scan(b, next).0;
            assert(seq![payload] + (more + behind) =~= (seq![payload] + more) + behind);
        },
        _ => {
            assert(scan(b, at).0 + behind =~= behind);
        },
    }
}

/// A journal that is cut behind its last complete record takes new ones: they are read
/// back behind the old ones.
pub proof fn law_cut_journal_takes_more(b: Seq<u8>, more: Seq<Seq<u8>>)
    requires
        forall|i: int| 0 <= i < more.len() ==> (#[trigger] more[i]).len() <= MAX_RECORD,
    ensures
        scan(b.take(good_end(b, 0)) + frames(more), 0) == (
            scan(b, 0).0 + more,
            None::<(int, Fault)>,
        ),
{
    reveal(record_at);
    let cut = b.take(good_end(b, 0));
    lemma_good_part(b, 0, frames(more));
    lemma_reads_through(cut, more, Seq::empty());
    assert(cut + frames(more) + Seq::<u8>::empty() =~= cut + frames(more));
    assert(more + Seq::<Seq<u8>>::empty() =~= more);
}

/// A record that was written in part is passed over.
proof fn lemma_cut(pre: Seq<u8>, x: Seq<u8>, k: int)
    requires
        x.len() <= MAX_RECORD,
        0 <= k < frame(x).len(),
    ensures
        scan(pre + frame(x).take(k), pre.len() as int).0.len() == 0,
        scan(pre + frame(x).take(k), pre.len() as int).1.is_none(),
{
    reveal(record_at);
    let b = pre + frame(x).take(k);
    let at = pre.len() as int;
    let len = x.len() as u32;
    if k >= 4 {
        assert(b.subrange(at, at + 4) =~= le_bytes(len));
        lemma_word(len, b, at);
    }
}

/// What a crash leaves of some records is read without a fault.
#[verifier::spinoff_prover]
#[verifier::rlimit(30)]
proof fn lemma_crash(pre: Seq<u8>, later: Seq<Seq<u8>>, k: int)
    requires
        forall|i: int| 0 <= i < later.len() ==> (#[trigger] later[i]).len() <= MAX_RECORD,
        0 <= k <= frames(later).len(),
    ensures
        ({
            let (records, fault) = scan(pre + frames(later).take(k), pre.len() as int);
            records.is_prefix_of(later) && fault.is_none()
        }),
    decreases later.len(),
{
    let b = pre + frames(later).take(k);
    let at = pre.len() as int;
    if later.len() == 0 {
        reveal(record_at);
        assert(b.len() == at);
    } else {
        let x = later[0];
        let rest = later.drop_first();
        assert forall|i: int| 0 <= i < rest.len() implies (#[trigger] rest[i]).len()
            <= MAX_RECORD by {
            assert(rest[i] == later[i + 1]);
        }
        lemma_frames_front(later);
        let len = x.len() as u32;
        if k < frame(x).len() {
            lemma_cut(pre, x, k);
            assert(frames(later).take(k) =~= frame(x).take(k));
        } else {
            let left = frames(rest).take(k - frame(x).len());
            assert(frames(later).take(k) =~= frame(x) + left);
            let pre2 = pre + frame(x);
            assert(b =~= pre2 + left);
            lemma_framed(pre, x, x, left);
            assert(pre + (le_bytes(len) + le_bytes(checksum::crc32_of(x)) + x) + left =~= b);
            lemma_crash(pre2, rest, k - frame(x).len());
            let more = scan(b, pre2.len() as int).0;
            assert(later =~= seq![x] + rest);
            assert((seq![x] + more).is_prefix_of(later));
        }
    }
}

/// Records that were made durable survive: wherever a crash cuts what was appended
/// since, they are all read back, and so are those that were written in full behind them.
pub proof fn law_synced_records_survive(synced: Seq<Seq<u8>>, later: Seq<Seq<u8>>, k: int)
    requires
        forall|i: int| 0 <= i < synced.len() ==> (#[trigger] synced[i]).len() <= MAX_RECORD,
        forall|i: int| 0 <= i < later.len() ==> (#[trigger] later[i]).len() <= MAX_RECORD,
        0 <= k <= frames(later).len(),
    ensures
        ({
            let (records, fault) = scan(frames(synced) + frames(later).take(k), 0);
            &&& synced.is_prefix_of(records)
            &&& records.is_prefix_of(synced + later)
            &&& fault.is_none()
        }),
{
    let tail = frames(later).take(k);
    lemma_reads_through(Seq::empty(), synced, tail);
    assert(Seq::<u8>::empty() + frames(synced) + tail =~= frames(synced) + tail);
    lemma_crash(frames(synced), later, k);
    let more = scan(frames(synced) + tail, frames(synced).len() as int).0;
    assert(more =~= later.take(more.len() as int));
    assert(synced + more =~= (synced + later).take((synced + more).len() as int));
    assert(synced =~= (synced + more).take(synced.len() as int));
}

/// A record whose bytes no longer have the checksum that was written with them
/// is refused, and the records before it are not affected.
pub proof fn law_changed_record_is_refused(
    payloads: Seq<Seq<u8>>,
    written: Seq<u8>,
    found: Seq<u8>,
    rest: Seq<u8>,
)
    requires
        forall|i: int| 0 <= i < payloads.len() ==> (#[trigger] payloads[i]).len() <= MAX_RECORD,
        written.len() <= MAX_RECORD,
        found.len() == written.len(),
        checksum::crc32_of(found) != checksum::crc32_of(written),
    ensures
        ({
            let head = le_bytes(written.len() as u32) + le_bytes(checksum::crc32_of(written));
            let b = frames(payloads) + (head + found) + rest;
            let next = (frames(payloads).len() + 8 + written.len()) as int;
            scan(b, 0) == (
                payloads,
                Some(
                    (
                        next,
                        Fault::CrcMismatch {
                            expected: checksum::crc32_of(written),
                            actual: checksum::crc32_of(found),
                        },
                    ),
                ),
            )
        }),
{
    let head = le_bytes(written.len() as u32) + le_bytes(checksum::crc32_of(written));
    let b = frames(payloads) + (head + found) + rest;
    let tail = (head + found) + rest;
    lemma_reads_through(Seq::empty(), payloads, tail);
    assert(b =~= Seq::<u8>::empty() + frames(payloads) + tail);
    lemma_framed(frames(payloads), written, found, rest);
    assert(payloads + Seq::<Seq<u8>>::empty() =~= payloads);
}

} // verus!
