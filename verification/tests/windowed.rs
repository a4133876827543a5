use tutti::collections::SortedSet;
use tutti::replica::{Digest, EntryHash};
use tutti::windowed::{
    AuthorId, Compaction, CourierContext, DeferredLiftError, DiscardBatchSeq, DiscardHistory,
    FloorAnswer, LogHead, OpId, PreparedCommit, TryLift, WindowOp, WindowedStore,
};

fn op_id(byte: u8) -> OpId {
    OpId::from_bytes([byte; 32])
}

fn entry(byte: u8) -> EntryHash {
    EntryHash::from_bytes([byte; 32])
}

fn digest(byte: u8) -> Digest {
    Digest::from_bytes([byte; 32])
}

fn op(id: u8, backlink: Option<u8>, observed: &[u8]) -> WindowOp {
    WindowOp {
        id: op_id(id),
        author: AuthorId::from_bytes([1; 32]),
        advanced_head: LogHead {
            next_seq: u64::from(id),
            backlink: Some(op_id(id)),
        },
        backlink: backlink.map(op_id),
        observed: observed.iter().map(|byte| op_id(*byte)).collect(),
    }
}

fn entries(bytes: &[u8]) -> SortedSet<EntryHash> {
    let mut set = SortedSet::new();
    for byte in bytes {
        set.insert(entry(*byte));
    }
    set
}

/// Drives a drain to its end, lifting operation `n` as entry `n + 100`.
fn drain(store: &mut WindowedStore) -> Vec<EntryHash> {
    while let Some(_prevs) = store.next_attempt() {
        let byte = store.current().id.as_bytes()[0] + 100;
        let outcome = store.try_lift(entry(byte), FloorAnswer::Lifted { evicted: vec![] });
        assert_eq!(outcome, TryLift::Lifted(entry(byte)));
    }
    store.finish().lifted
}

#[test]
fn an_operation_waits_for_its_causal_past() {
    let mut store = WindowedStore::with_window_limits(8, 16);
    assert!(store.ingest_verified(op(2, Some(1), &[])));
    assert!(store.next_attempt().is_none());
    assert!(store.finish().lifted.is_empty());
    assert_eq!(store.pending_len(), 1);
    assert!(store.knows_op(op_id(2)));
    assert!(!store.ingest_verified(op(2, Some(1), &[])));

    assert!(store.ingest_verified(op(1, None, &[])));
    assert_eq!(drain(&mut store), [entry(101), entry(102)]);
    assert_eq!(store.pending_len(), 0);
    assert_eq!(store.lifted_entry(op_id(2)), Some(entry(102)));
    assert_eq!(store.entry_hashes(), entries(&[101, 102]));
    assert_eq!(
        store.head_of(AuthorId::from_bytes([1; 32])).next_seq,
        2
    );
    assert_eq!(
        store.head_of(AuthorId::from_bytes([2; 32])),
        LogHead::genesis()
    );
}

#[test]
fn references_resolve_to_the_entries_of_their_operations() {
    let mut store = WindowedStore::with_window_limits(8, 16);
    store.ingest_verified(op(1, None, &[]));
    drain(&mut store);
    store.ingest_verified(op(2, None, &[]));
    drain(&mut store);
    let later = op(3, Some(1), &[2, 2]);
    assert_eq!(store.resolve_prevs(&later), Some(entries(&[101, 102])));
    assert_eq!(store.resolve_prevs(&op(4, None, &[9])), None);
    assert_eq!(
        store.observed_frontier(&[entry(102), entry(7)]),
        [op_id(2)]
    );
}

#[test]
fn a_full_window_truncates_and_refuses_a_view() {
    let mut store = WindowedStore::with_cap(1);
    store.ingest_verified(op(1, None, &[]));
    drain(&mut store);
    assert!(store.is_answerable());
    assert!(store.is_complete());
    store.ingest_verified(op(2, None, &[]));
    assert!(store.next_attempt().is_some());
    store.try_lift(
        entry(102),
        FloorAnswer::Lifted {
            evicted: vec![entry(101)],
        },
    );
    assert!(store.next_attempt().is_none());
    store.finish();
    assert!(!store.is_answerable());
    assert!(!store.is_complete());
    assert_eq!(store.len(), 1);
    assert_eq!(store.lifted_entry(op_id(1)), None);
    assert_eq!(store.cap(), 1);
    assert!(!store.is_compacting());
    assert_eq!(
        store.compact(&SortedSet::new(), digest(0), digest(0)),
        Compaction {
            discarded: 0,
            retained: 1
        }
    );
}

#[test]
fn compaction_keeps_the_residue_and_every_binding() {
    let mut store = WindowedStore::with_window(1, 4);
    for id in 1..=3 {
        store.ingest_verified(op(id, None, &[]));
        drain(&mut store);
    }
    assert!(store.needs_compaction());
    let keep = entries(&[102]);
    assert_eq!(store.discards(&keep), [entry(101), entry(103)]);
    assert_eq!(
        store.compact(&keep, digest(5), digest(6)),
        Compaction {
            discarded: 2,
            retained: 1
        }
    );
    assert!(store.is_answerable());
    assert!(!store.is_complete());
    assert_eq!(store.entry_hashes(), keep);
    assert_eq!(store.lifted_entry(op_id(1)), None);
    assert_eq!(store.lifted_entry(op_id(2)), Some(entry(102)));
    assert!(!store.knows_op(op_id(1)));
    assert!(store.knows_op(op_id(2)));
    assert!(!store.ingest_verified(op(1, None, &[])));
    assert_eq!(store.pending_len(), 0);
    assert_eq!(
        store.resolve_prevs(&op(9, Some(1), &[2])),
        Some(entries(&[101, 102]))
    );
    assert_eq!(store.total_discarded(), 2);
    assert_eq!(store.compaction_count(), 1);
    assert_eq!(
        store.compact(&keep, digest(5), digest(6)),
        Compaction {
            discarded: 0,
            retained: 1
        }
    );

    let path = store
        .prove_discarded_at(&entry(103), digest(6), digest(6))
        .unwrap();
    assert_eq!(path.batch, [entry(101), entry(103)]);
    assert_eq!(path.pinned_before, digest(0));
    assert!(path.later.is_empty());
    assert!(store
        .prove_discarded_at(&entry(103), digest(7), digest(6))
        .is_none());
    assert!(store
        .prove_discarded_at(&entry(102), digest(6), digest(6))
        .is_none());
    assert_eq!(
        store.discard_history().next_seq(),
        DiscardBatchSeq(1)
    );
}

#[test]
fn a_deep_laggard_is_deferred_and_admitted_by_a_courier() {
    let mut store = WindowedStore::with_window_limits(8, 16);
    store.ingest_verified(op(1, None, &[]));
    drain(&mut store);
    store.compact(&SortedSet::new(), digest(5), digest(6));
    store.ingest_verified(op(2, Some(1), &[]));
    assert_eq!(store.next_attempt(), Some(entries(&[101])));
    let outcome = store.try_lift(
        entry(102),
        FloorAnswer::Deferred {
            missing: entries(&[101]),
        },
    );
    assert_eq!(outcome, TryLift::Courier(entry(102)));
    assert!(store.next_attempt().is_none());
    let ingest = store.finish();
    assert!(ingest.lifted.is_empty());
    assert_eq!(ingest.courier.len(), 1);
    assert_eq!(ingest.courier[0].candidate, entry(102));
    assert_eq!(ingest.courier[0].missing, entries(&[101]));
    assert_eq!(store.pending_len(), 1);

    let context = store.courier_context(digest(6)).unwrap();
    assert!(context.retained.is_empty());
    let hashes = vec![entry(102)];
    assert_eq!(
        store.courier_candidate(entry(102), &context, digest(7), &hashes),
        Err(DeferredLiftError::StaleContext)
    );
    assert_eq!(
        store.courier_candidate(entry(9), &context, digest(6), &hashes),
        Err(DeferredLiftError::UnknownCandidate(entry(9)))
    );
    let stale = CourierContext {
        discard_root: digest(6),
        retained: vec![entry(1)],
    };
    assert_eq!(
        store.courier_candidate(entry(102), &stale, digest(6), &hashes),
        Err(DeferredLiftError::StaleContext)
    );
    let place = store
        .courier_candidate(entry(102), &context, digest(6), &hashes)
        .unwrap();
    assert_eq!(place, 0);
    assert_eq!(store.pending_op(place).id, op_id(2));
    store.lift_pending_via_courier(place, entry(102));
    assert!(store.next_attempt().is_none());
    assert_eq!(store.finish().lifted, [entry(102)]);
    assert_eq!(store.pending_len(), 0);
    assert!(WindowedStore::with_cap(3).courier_context(digest(6)).is_none());
}

#[test]
fn a_retry_reports_what_still_waits() {
    let mut store = WindowedStore::with_window_limits(8, 16);
    store.ingest_verified(op(2, Some(1), &[]));
    store.retry_pending();
    assert!(store.next_attempt().is_none());
    let ingest = store.finish();
    assert!(ingest.lifted.is_empty());
    assert!(ingest.courier.is_empty());
    assert_eq!(store.pending_len(), 1);
    assert!(store.is_empty());
}

#[test]
fn the_journal_drops_whole_batches_oldest_first() {
    let mut journal = DiscardHistory::new(4);
    journal.record(vec![entry(1), entry(2)], digest(11), digest(21));
    journal.record(vec![entry(3), entry(4)], digest(12), digest(22));
    assert_eq!(journal.batch_count(), 2);
    assert_eq!(journal.oldest(), Some(DiscardBatchSeq(0)));
    let path = journal.prove(&entry(2)).unwrap();
    assert_eq!(path.pinned_before, digest(0));
    assert_eq!(path.later, [digest(12)]);

    journal.record(vec![entry(5)], digest(13), digest(23));
    assert_eq!(journal.batch_count(), 2);
    assert_eq!(journal.oldest(), Some(DiscardBatchSeq(1)));
    assert!(journal.prove(&entry(2)).is_none());
    let path = journal.prove(&entry(3)).unwrap();
    assert_eq!(path.batch, [entry(3), entry(4)]);
    assert_eq!(path.pinned_before, digest(21));
    assert_eq!(path.later, [digest(13)]);
    assert_eq!(journal.prove(&entry(5)).unwrap().pinned_before, digest(22));
    assert_eq!(journal.batch(1).seq, DiscardBatchSeq(2));
    assert_eq!(journal.batch(1).entries, [entry(5)]);
}

#[test]
fn an_oversized_batch_empties_the_journal() {
    let mut journal = DiscardHistory::new(2);
    journal.record(vec![entry(1)], digest(11), digest(21));
    journal.record(
        vec![entry(2), entry(3), entry(4)],
        digest(12),
        digest(22),
    );
    assert_eq!(journal.batch_count(), 0);
    assert!(journal.prove(&entry(1)).is_none());
    assert!(journal.prove(&entry(3)).is_none());
    assert_eq!(journal.next_seq(), DiscardBatchSeq(2));
    journal.record(vec![entry(9)], digest(13), digest(23));
    assert_eq!(journal.prove(&entry(9)).unwrap().pinned_before, digest(22));
}

#[test]
fn courier_errors_have_their_messages() {
    assert_eq!(
        DeferredLiftError::StaleContext.message(),
        "courier context is stale; re-request"
    );
    assert_eq!(
        DeferredLiftError::Courier("BadProof".to_string()).message(),
        "courier admission failed: BadProof"
    );
    assert!(DeferredLiftError::UnknownCandidate(entry(0xab))
        .message()
        .ends_with("abab"));
}

#[test]
fn a_commit_is_prepared_over_the_head_and_the_frontier() {
    let author = AuthorId::from_bytes([1; 32]);
    let mut store = WindowedStore::with_window_limits(8, 16);
    let fresh = store.prepare_commit(author, &[]);
    assert_eq!(fresh.head, LogHead::genesis());
    assert!(fresh.observed.is_empty());
    store.ingest_verified(op(1, None, &[]));
    drain(&mut store);
    let prepared = store.prepare_commit(author, &[entry(101)]);
    assert_eq!(
        prepared,
        PreparedCommit {
            head: LogHead {
                next_seq: 1,
                backlink: Some(op_id(1))
            },
            observed: vec![op_id(1)],
        }
    );
    assert_eq!(store.len(), 1);
}

#[test]
fn discard_batches_are_told_oldest_first() {
    let mut store = WindowedStore::with_window_limits(1, 16);
    assert_eq!(store.oldest_discard_batch(), None);
    assert_eq!(store.next_discard_batch(), DiscardBatchSeq(0));
    for id in 1..=3 {
        store.ingest_verified(op(id, None, &[]));
        drain(&mut store);
    }
    store.compact(&entries(&[102, 103]), digest(1), digest(2));
    store.compact(&entries(&[103]), digest(3), digest(4));
    store.compact(&entries(&[103]), digest(5), digest(6));
    let batches = store.discard_batches();
    assert_eq!(batches.len(), 2);
    assert_eq!(batches[0].seq, DiscardBatchSeq(0));
    assert_eq!(batches[0].entries, [entry(101)]);
    assert_eq!(batches[1].seq, DiscardBatchSeq(1));
    assert_eq!(batches[1].entries, [entry(102)]);
    assert_eq!(store.oldest_discard_batch(), Some(DiscardBatchSeq(0)));
    assert_eq!(store.next_discard_batch(), DiscardBatchSeq(2));
}

#[test]
fn a_late_operation_does_not_take_its_authors_head_back() {
    let author = AuthorId::from_bytes([1; 32]);
    let mut store = WindowedStore::with_window_limits(8, 16);
    store.ingest_verified(op(5, None, &[]));
    drain(&mut store);
    store.ingest_verified(op(2, None, &[]));
    drain(&mut store);
    assert_eq!(store.head_of(author).next_seq, 5);
    assert_eq!(store.head_of(author).backlink, Some(op_id(5)));
}
