//! The journal of the engine, on the bytes of its file.
use matching_engine::types::ids::SeqNo;
use matching_engine::wal::journal::{
    push_frame, read_all, valid_length, Fault, WalError, WalReader, WalWriter,
};

/// The bytes of a command that adds a user.
fn env(seq: u64, uid: u64) -> Vec<u8> {
    let mut out = Vec::new();
    out.extend_from_slice(&seq.to_le_bytes());
    out.extend_from_slice(&uid.to_le_bytes());
    out
}

fn seq_of(payload: &[u8]) -> SeqNo {
    let mut word = [0u8; 8];
    word.copy_from_slice(&payload[..8]);
    SeqNo(u64::from_le_bytes(word))
}

/// What a writer brings into a file that holds some bytes.
fn written(file: &[u8], records: &[(u64, u64)]) -> (Vec<u8>, WalWriter) {
    let mut w = WalWriter::new();
    for &(seq, uid) in records {
        w.append(SeqNo(seq), &env(seq, uid));
    }
    let mut out = file.to_vec();
    out.extend_from_slice(w.pending());
    w.mark_synced();
    (out, w)
}

#[test]
fn append_then_read_roundtrip() {
    let (file, w) = written(&[], &[(1, 100), (2, 200), (3, 300)]);
    assert_eq!(w.last_synced_seq(), SeqNo(3));
    let all = read_all(file).unwrap();
    assert_eq!(all.len(), 3);
    assert_eq!(seq_of(&all[0]), SeqNo(1));
    assert_eq!(seq_of(&all[2]), SeqNo(3));
}

#[test]
fn empty_file_yields_no_records() {
    let (file, _) = written(&[], &[]);
    let all = read_all(file).unwrap();
    assert!(all.is_empty());
}

#[test]
fn torn_tail_treated_as_eof() {
    let (mut file, _) = written(&[], &[(1, 100), (2, 200), (3, 300)]);
    // Lop a byte off the final record's payload.
    file.pop();
    let all = read_all(file).unwrap();
    assert_eq!(all.len(), 2);
    assert_eq!(seq_of(&all[1]), SeqNo(2));
}

#[test]
fn crc_mismatch_detected() {
    let (mut file, _) = written(&[], &[(1, 100)]);
    // Skip 4 bytes of length, 4 of checksum and the first 4 of the payload.
    file[12] = 0xAA;
    match read_all(file) {
        Err(WalError::Corrupt { fault, .. }) => {
            assert!(fault.message().contains("crc mismatch"));
        }
        other => panic!("expected CRC mismatch, got {other:?}"),
    }
}

#[test]
fn zeroed_payload_caught_by_crc() {
    let (mut file, _) = written(&[], &[(1, 100)]);
    // Zero everything after the length header.
    for b in file[4..].iter_mut() {
        *b = 0;
    }
    assert!(matches!(read_all(file), Err(WalError::Corrupt { .. })));
}

#[test]
fn reopen_appends_after_existing() {
    let (file, _) = written(&[], &[(1, 1)]);
    let (file, _) = written(&file, &[(2, 2)]);
    let all = read_all(file).unwrap();
    assert_eq!(all.len(), 2);
    assert_eq!(seq_of(&all[1]), SeqNo(2));
}

#[test]
fn a_frame_is_length_checksum_and_payload() {
    let mut file = Vec::new();
    push_frame(&mut file, b"123456789");
    // The check value of CRC-32 is 0xcbf43926.
    assert_eq!(&file[..4], &[9, 0, 0, 0]);
    assert_eq!(&file[4..8], &[0x26, 0x39, 0xf4, 0xcb]);
    assert_eq!(&file[8..], b"123456789");
}

#[test]
fn absurd_length_is_corrupt() {
    let file = vec![0xff, 0xff, 0xff, 0xff, 0, 0, 0, 0];
    match read_all(file) {
        Err(WalError::Corrupt { offset, fault }) => {
            assert_eq!(offset, 0);
            assert_eq!(fault, Fault::TooLong { len: u32::MAX });
        }
        other => panic!("expected a length error, got {other:?}"),
    }
}

#[test]
fn a_reader_goes_record_by_record() {
    let (file, w) = written(&[], &[(7, 1), (8, 2)]);
    assert_eq!(w.last_written_seq(), SeqNo(8));
    let mut r = WalReader::new(file);
    assert_eq!(r.read_next().unwrap(), Some(env(7, 1)));
    assert_eq!(r.read_next().unwrap(), Some(env(8, 2)));
    assert_eq!(r.read_next().unwrap(), None);
    assert_eq!(r.read_next().unwrap(), None);
}

#[test]
fn appending_is_not_yet_synced() {
    let mut w = WalWriter::new();
    w.append(SeqNo(4), &[1, 2, 3]);
    assert_eq!(w.last_written_seq(), SeqNo(4));
    assert_eq!(w.last_synced_seq(), SeqNo(0));
    assert_eq!(w.pending().len(), 11);
    w.mark_synced();
    assert_eq!(w.last_synced_seq(), SeqNo(4));
    assert!(w.pending().is_empty());
}

#[test]
fn a_cut_journal_keeps_what_is_written_behind_it() {
    let (good, _) = written(&[], &[(1, 100), (2, 200)]);
    let (whole, _) = written(&good, &[(3, 300)]);
    assert_eq!(valid_length(&whole), whole.len());
    for end in good.len()..whole.len() {
        let torn = &whole[..end];
        assert_eq!(valid_length(torn), good.len());
        // Behind the torn record nothing would be read. Behind the cut it is.
        let (more, _) = written(&torn[..valid_length(torn)], &[(3, 333)]);
        let all = read_all(more).unwrap();
        assert_eq!(all.len(), 3);
        assert_eq!(all[2], env(3, 333));
    }
}

#[test]
fn synced_records_survive_a_crash() {
    let (synced, _) = written(&[], &[(1, 100), (2, 200)]);
    let (whole, _) = written(&synced, &[(3, 300), (4, 400)]);
    for end in synced.len()..=whole.len() {
        let all = read_all(whole[..end].to_vec()).unwrap();
        assert_eq!(&all[..2], &[env(1, 100), env(2, 200)]);
    }
}
