use sha2::{Digest, Sha256};
use moor::store::{select_candidates, Commit, Kind, Store, StoreError};

fn commit(slot: u8, index: u64) -> Commit {
    Commit {
        slot,
        body: slot,
        kind: Kind::Log,
        generation: 3,
        epoch: 1,
        index,
        length: 4,
        start: 10,
        end: 14,
        hash: [7; 32],
    }
}

#[test]
fn a_record_reads_back_what_was_written() {
    let c = commit(1, 5);
    let bytes = c.encode();
    assert_eq!(bytes.len(), 92);
    assert_eq!(&bytes[..9], b"MOORCMT1\x01");
    let back = Commit::decode(&bytes, 1, Kind::Log, Some(3)).unwrap();
    assert_eq!(back.encode(), bytes);
    assert_eq!((back.index, back.start, back.end, back.hash), (5, 10, 14, [7; 32]));
}

#[test]
fn a_record_in_the_wrong_slot_kind_generation_or_with_a_bad_checksum_is_refused() {
    let bytes = commit(0, 5).encode();
    assert!(Commit::decode(&bytes, 1, Kind::Log, None).is_none());
    assert!(Commit::decode(&bytes, 0, Kind::Event, None).is_none());
    assert!(Commit::decode(&bytes, 0, Kind::Log, Some(4)).is_none());
    assert!(Commit::decode(&bytes, 0, Kind::Log, None).is_some());
    let mut corrupt = bytes.clone();
    corrupt[30] ^= 1;
    assert!(Commit::decode(&corrupt, 0, Kind::Log, None).is_none());
}

#[test]
fn the_higher_index_stands_and_ties_are_corrupt() {
    let picked = select_candidates(Some((commit(0, 4), 'a')), Some((commit(1, 5), 'b'))).unwrap();
    assert_eq!((picked.0.index, picked.1), (5, 'b'));
    let only = select_candidates(None, Some((commit(1, 2), ()))).unwrap();
    assert_eq!(only.0.index, 2);
    assert_eq!(select_candidates(Some((commit(0, 4), ())), Some((commit(1, 4), ()))).unwrap_err(), StoreError::Corrupt);
    assert_eq!(select_candidates::<()>(None, None).unwrap_err(), StoreError::Corrupt);
}

#[test]
fn replacing_a_log_moves_to_the_other_slot_with_the_next_epoch() {
    let mut store = Store::from_commit(commit(0, 4));
    let next = store.replace_with(b"abcd", 2, 14, 18, false).unwrap();
    assert_eq!((next.slot, next.body, next.index, next.epoch, next.length), (1, 1, 5, 2, 4));
    assert_eq!(store.selected().index, 5);
    assert_eq!(store.replace_with(b"abc", 3, 18, 22, false).unwrap_err(), StoreError::Corrupt);
    assert_eq!(store.replace_with(b"abcd", 9, 18, 22, false).unwrap_err(), StoreError::Corrupt);
    assert_eq!(store.selected().index, 5);
}

#[test]
fn an_exit_store_takes_one_replacement() {
    let mut exit = commit(0, 1);
    exit.kind = Kind::Exit;
    let mut store = Store::from_commit(exit);
    assert!(store.replace_with(b"{}\n", 1, 0, 0, true).is_ok());
    assert_eq!(store.replace_with(b"{}\n", 1, 0, 0, true).unwrap_err(), StoreError::Exhausted);
}

#[test]
fn a_record_holds_only_the_body_it_names() {
    let mut c = commit(0, 5);
    c.hash = Sha256::digest(b"abcd").into();
    assert!(c.holds(b"abcd", false));
    assert!(!c.holds(b"abce", false));
    assert!(!c.holds(b"abc", false));
    let mut event = c;
    event.kind = Kind::Event;
    assert!(event.holds(b"abcd", true));
    assert!(!event.holds(b"abcd", false));
}

#[test]
fn appending_within_the_cap_extends_the_body() {
    let mut store = Store::from_commit(commit(0, 4));
    let write = store.append_capped(b"abcd", b"xy", 10, 16).unwrap();
    assert_eq!((write.offset, write.bytes.clone(), write.truncate), (4, b"xy".to_vec(), false));
    assert_eq!((write.commit.slot, write.commit.body, write.commit.index), (1, 0, 5));
    assert_eq!((write.commit.start, write.commit.end, write.commit.length, write.commit.epoch), (10, 16, 6, 1));
    let digest: [u8; 32] = Sha256::digest(b"abcdxy").into();
    assert_eq!(write.commit.hash, digest);
}

#[test]
fn appending_past_the_cap_keeps_the_last_bytes_under_a_new_epoch() {
    let mut store = Store::from_commit(commit(0, 4));
    let write = store.append_capped(b"abcd", b"xy", 5, 16).unwrap();
    assert_eq!((write.offset, write.bytes.clone(), write.truncate), (0, b"bcdxy".to_vec(), true));
    assert_eq!((write.commit.body, write.commit.epoch, write.commit.start, write.commit.end), (1, 2, 11, 16));
    let write = Store::from_commit(commit(0, 4)).append_capped(b"abcd", b"0123456789", 3, 24).unwrap();
    assert_eq!(write.bytes, b"789".to_vec());
    assert_eq!(write.commit.start, 21);
}

#[test]
fn an_append_that_does_not_continue_the_output_is_refused() {
    let mut store = Store::from_commit(commit(0, 4));
    assert_eq!(store.append_capped(b"abcd", b"xy", 10, 15).err().map(|e| e), Some(StoreError::Corrupt));
    assert_eq!(store.selected().index, 4);
}
