use block_executor::leader_reputation::{find_validator, same_author, CommitEvent, MetadataBackendAdapter};
use std::collections::HashMap;

fn author(n: u8) -> [u8; 32] {
    let mut a = [0u8; 32];
    a[31] = n;
    a
}

fn event(epoch: u64, round: u64, parents: Vec<u8>, failed: Vec<u8>) -> CommitEvent {
    CommitEvent {
        epoch,
        round,
        author: author(1),
        parents: parents.into_iter().map(author).collect(),
        failed_authors: failed.into_iter().map(author).collect(),
    }
}

fn adapter(window: usize) -> MetadataBackendAdapter {
    let validators: Vec<[u8; 32]> = (0..10).map(author).collect();
    MetadataBackendAdapter::new(window, HashMap::from([(5u64, validators)]))
}

#[test]
fn window_keeps_the_newest_events_of_known_epochs() {
    let mut a = adapter(2);
    a.push(event(5, 1, vec![], vec![]));
    a.push(event(6, 2, vec![], vec![]));
    a.push(event(5, 3, vec![], vec![]));
    a.push(event(5, 4, vec![], vec![]));
    let (events, hash) = a.get_block_metadata(5, 4).unwrap();
    let rounds: Vec<u64> = events.iter().map(|e| e.round).collect();
    assert_eq!(rounds, vec![4, 3]);
    assert_eq!(hash, [0u8; 32]);
}

#[test]
fn conversion_sets_one_bit_per_parent() {
    let a = adapter(4);
    let e = a.convert(&event(5, 7, vec![0, 9, 3], vec![2, 8])).unwrap();
    assert_eq!(e.epoch, 5);
    assert_eq!(e.round, 7);
    assert_eq!(e.proposer, author(1));
    assert_eq!(e.previous_block_votes_bitvec, vec![0b1001_0000, 0b0100_0000]);
    assert_eq!(e.failed_proposer_indices, vec![2, 8]);
}

#[test]
fn conversion_fails_on_unknown_author_or_epoch() {
    let mut a = adapter(4);
    assert!(a.convert(&event(5, 7, vec![11], vec![])).is_none());
    assert!(a.convert(&event(5, 7, vec![], vec![12])).is_none());
    assert!(a.convert(&event(6, 7, vec![], vec![])).is_none());
    a.push(event(5, 1, vec![20], vec![]));
    assert!(a.get_block_metadata(5, 1).is_none());
}

#[test]
fn author_lookup() {
    let validators: Vec<[u8; 32]> = vec![author(4), author(7), author(4)];
    assert_eq!(find_validator(&validators, &author(4)), Some(0));
    assert_eq!(find_validator(&validators, &author(7)), Some(1));
    assert_eq!(find_validator(&validators, &author(9)), None);
    assert!(same_author(&author(3), &author(3)));
    assert!(!same_author(&author(3), &author(2)));
}
