use unreliable_message::msgqueue::CompleteMessage;
use unreliable_message::msgqueue::MsgChunk;
use unreliable_message::msgqueue::MsgId;
use unreliable_message::msgqueue::MsgQueue;
use unreliable_message::msgqueue::MsgStage;
use unreliable_message::msgqueue::PieceNum;

// Stage tests

#[test]
fn is_ready_single_complete() {
    let comp_chunk = MsgChunk(MsgId(0), PieceNum(1, 1), vec![0]);
    let stage = MsgStage::new(comp_chunk);
    assert!(stage.is_ready());
    assert!(stage.merge() == CompleteMessage(MsgId(0), vec![0]));
}

#[test]
fn is_ready_single_incomplete() {
    let incomp_chunk = MsgChunk(MsgId(0), PieceNum(1, 2), vec![0]);
    let stage = MsgStage::new(incomp_chunk);
    assert!(!stage.is_ready());
}

#[test]
fn is_ready_double_complete() {
    let c1 = MsgChunk(MsgId(0), PieceNum(1, 2), vec![0]);
    let c2 = MsgChunk(MsgId(0), PieceNum(2, 2), vec![1]);

    let mut stage = MsgStage::new(c1.clone());
    stage.add_chunk(c2.clone());
    assert!(stage.is_ready());
    assert!(stage.merge() == CompleteMessage(MsgId(0), vec![0, 1]));

    // Now in the opposite order

    let mut stage = MsgStage::new(c2.clone());
    stage.add_chunk(c1.clone());
    assert!(stage.is_ready());
    assert!(stage.merge() == CompleteMessage(MsgId(0), vec![0, 1]));
}

#[test]
fn is_ready_double_same() {
    let c1 = MsgChunk(MsgId(0), PieceNum(1, 2), vec![0]);

    let mut stage = MsgStage::new(c1.clone());
    stage.add_chunk(c1);
    assert!(!stage.is_ready());
}

// Queue tests

#[test]
fn queue_single() {
    let mut queue = MsgQueue::new(None);
    let c1 = MsgChunk(MsgId(1), PieceNum(1, 1), vec![0]);

    let res = queue.insert_chunk(c1.clone());

    assert!(res.is_some());
    assert!(res.unwrap() == CompleteMessage(MsgId(1), vec![0]));
    assert!(queue.last_released == Some(MsgId(1)));

    // try to requeue the message.  It shouldn't go through this time.
    let res = queue.insert_chunk(c1);
    assert!(res.is_none());
}

#[test]
fn queue_double() {
    let mut queue = MsgQueue::new(None);
    let c1 = MsgChunk(MsgId(1), PieceNum(1, 2), vec![0]);
    let c2 = MsgChunk(MsgId(1), PieceNum(2, 2), vec![1]);

    let res = queue.insert_chunk(c1.clone());
    assert!(res.is_none());
    let res = queue.insert_chunk(c2.clone());
    assert!(res.is_some());
    assert!(res.unwrap() == CompleteMessage(MsgId(1), vec![0, 1]));
    assert!(queue.last_released == Some(MsgId(1)));

    assert!(queue.insert_chunk(c1).is_none());
    assert!(queue.insert_chunk(c2).is_none());
}

#[test]
fn out_of_order() {
    let mut queue = MsgQueue::new(None);
    let c1 = MsgChunk(MsgId(1), PieceNum(1, 1), vec![0]);
    let c2 = MsgChunk(MsgId(2), PieceNum(1, 1), vec![1]);

    assert!(queue.insert_chunk(c2.clone()).is_some());
    assert!(queue.insert_chunk(c1).is_none());
    assert!(queue.insert_chunk(c2).is_none());
}

#[test]
fn odd_orders() {
    let a1 = MsgChunk(MsgId(1), PieceNum(1, 2), vec![0]);
    let a2 = MsgChunk(MsgId(1), PieceNum(2, 2), vec![1]);

    let b1 = MsgChunk(MsgId(2), PieceNum(1, 2), vec![2]);
    let b2 = MsgChunk(MsgId(2), PieceNum(2, 2), vec![3]);

    let mut queue = MsgQueue::new(None);
    assert!(queue.insert_chunk(a1.clone()).is_none());
    assert!(queue.insert_chunk(b1.clone()).is_none());
    assert!(queue.insert_chunk(a2.clone()).is_some());
    assert!(queue.insert_chunk(b2.clone()).is_some());

    let mut queue = MsgQueue::new(None);
    assert!(queue.insert_chunk(a1.clone()).is_none());
    assert!(queue.insert_chunk(b1.clone()).is_none());
    assert!(queue.insert_chunk(b2.clone()).is_some());
    assert!(queue.insert_chunk(a2.clone()).is_none());

    let mut queue = MsgQueue::new(None);
    assert!(queue.insert_chunk(b1.clone()).is_none());
    assert!(queue.insert_chunk(b2.clone()).is_some());
    assert!(queue.insert_chunk(a2.clone()).is_none());
}

// Scenario: a two-fragment message arriving in reverse order is merged in
// fragment-index order, not arrival order.

#[test]
fn reverse_order_concatenates_by_index() {
    let mut queue = MsgQueue::new(None);
    let second = MsgChunk(MsgId(1), PieceNum(2, 2), b"world".to_vec());
    let first = MsgChunk(MsgId(1), PieceNum(1, 2), b"hello".to_vec());

    assert!(queue.insert_chunk(second).is_none());
    let res = queue.insert_chunk(first);
    assert!(res.unwrap() == CompleteMessage(MsgId(1), b"helloworld".to_vec()));
}

// Scenario: interleaved messages; completing the older one does not block the
// newer one, since its id is above the high-water mark.

#[test]
fn interleaved_messages() {
    let mut queue = MsgQueue::new(None);
    assert!(queue.insert_chunk(MsgChunk(MsgId(1), PieceNum(1, 2), vec![10])).is_none());
    assert!(queue.insert_chunk(MsgChunk(MsgId(2), PieceNum(1, 2), vec![20])).is_none());

    let res = queue.insert_chunk(MsgChunk(MsgId(1), PieceNum(2, 2), vec![11]));
    assert!(res.unwrap() == CompleteMessage(MsgId(1), vec![10, 11]));
    assert!(queue.last_released == Some(MsgId(1)));

    let res = queue.insert_chunk(MsgChunk(MsgId(2), PieceNum(2, 2), vec![21]));
    assert!(res.unwrap() == CompleteMessage(MsgId(2), vec![20, 21]));
    assert!(queue.last_released == Some(MsgId(2)));
}

// Scenario: a newer single-fragment completion permanently abandons an older
// incomplete message.

#[test]
fn superseded_abandonment() {
    let mut queue = MsgQueue::new(None);
    assert!(queue.insert_chunk(MsgChunk(MsgId(1), PieceNum(1, 2), vec![1])).is_none());

    let res = queue.insert_chunk(MsgChunk(MsgId(2), PieceNum(1, 1), vec![2]));
    assert!(res.unwrap() == CompleteMessage(MsgId(2), vec![2]));
    assert!(queue.last_released == Some(MsgId(2)));
    assert!(queue.cur_size == 0);

    // the straggler of message 1 can no longer complete anything
    assert!(queue.insert_chunk(MsgChunk(MsgId(1), PieceNum(2, 2), vec![3])).is_none());
    assert!(queue.cur_size == 0);
}

// A single fragment fed to a fresh queue completes immediately.

#[test]
fn single_fragment_fresh_queue() {
    let mut queue = MsgQueue::new(Some(16));
    let res = queue.insert_chunk(MsgChunk(MsgId(7), PieceNum(1, 1), vec![1, 2, 3]));
    assert!(res.unwrap() == CompleteMessage(MsgId(7), vec![1, 2, 3]));
    assert!(queue.last_released == Some(MsgId(7)));
}

// A stale fragment leaves the tracked byte total untouched.

#[test]
fn stale_fragment_keeps_size() {
    let mut queue = MsgQueue::new(None);
    assert!(queue.insert_chunk(MsgChunk(MsgId(5), PieceNum(1, 1), vec![9])).is_some());
    assert!(queue.insert_chunk(MsgChunk(MsgId(9), PieceNum(1, 2), vec![1, 2])).is_none());
    assert!(queue.cur_size == 2);

    // same id as the published message: ignored, size unchanged
    assert!(queue.insert_chunk(MsgChunk(MsgId(5), PieceNum(1, 1), vec![9])).is_none());
    assert!(queue.cur_size == 2);

    // duplicate piece of the open message: ignored, size unchanged
    assert!(queue.insert_chunk(MsgChunk(MsgId(9), PieceNum(1, 2), vec![1, 2])).is_none());
    assert!(queue.cur_size == 2);
}

// With a byte bound, the buffer with the smallest message id is evicted first
// when the next insertion finds the queue over the bound.

#[test]
fn capacity_evicts_oldest_first() {
    let mut queue = MsgQueue::new(Some(3));
    assert!(queue.insert_chunk(MsgChunk(MsgId(1), PieceNum(1, 2), vec![0, 0])).is_none());
    assert!(queue.insert_chunk(MsgChunk(MsgId(2), PieceNum(1, 2), vec![1, 1])).is_none());
    assert!(queue.cur_size == 4);

    // over the bound: the next insertion first evicts message 1 (oldest)
    assert!(queue.insert_chunk(MsgChunk(MsgId(3), PieceNum(1, 2), vec![2])).is_none());
    assert!(queue.cur_size == 3);

    // message 1 was evicted, so its second piece opens a fresh, incomplete
    // buffer instead of completing anything
    assert!(queue.insert_chunk(MsgChunk(MsgId(1), PieceNum(2, 2), vec![0])).is_none());

    // message 2 survived eviction and still completes
    let res = queue.insert_chunk(MsgChunk(MsgId(2), PieceNum(2, 2), vec![1]));
    assert!(res.unwrap() == CompleteMessage(MsgId(2), vec![1, 1, 1]));
}

// Every arrival order of a three-fragment message gives exactly one
// completion, with the payload in fragment-index order.

#[test]
fn any_permutation_completes_once() {
    let pieces = [
        MsgChunk(MsgId(1), PieceNum(1, 3), b"ab".to_vec()),
        MsgChunk(MsgId(1), PieceNum(2, 3), b"cd".to_vec()),
        MsgChunk(MsgId(1), PieceNum(3, 3), b"e".to_vec()),
    ];
    let orders = [
        [0, 1, 2],
        [0, 2, 1],
        [1, 0, 2],
        [1, 2, 0],
        [2, 0, 1],
        [2, 1, 0],
    ];
    for order in orders {
        let mut queue = MsgQueue::new(None);
        let mut completed = Vec::new();
        for j in order {
            if let Some(m) = queue.insert_chunk(pieces[j].clone()) {
                completed.push(m);
            }
        }
        assert_eq!(completed.len(), 1);
        assert!(completed[0] == CompleteMessage(MsgId(1), b"abcde".to_vec()));
    }
}

// Duplicated pieces (replication echoes) add no bytes and no completion.

#[test]
fn duplicate_piece_is_free() {
    let mut queue = MsgQueue::new(None);
    assert!(queue.insert_chunk(MsgChunk(MsgId(1), PieceNum(1, 3), vec![1])).is_none());
    assert!(queue.insert_chunk(MsgChunk(MsgId(1), PieceNum(1, 3), vec![1])).is_none());
    assert!(queue.cur_size == 1);
    assert!(queue.insert_chunk(MsgChunk(MsgId(1), PieceNum(2, 3), vec![2])).is_none());
    assert!(queue.insert_chunk(MsgChunk(MsgId(1), PieceNum(2, 3), vec![2])).is_none());
    assert!(queue.cur_size == 2);
    let res = queue.insert_chunk(MsgChunk(MsgId(1), PieceNum(3, 3), vec![3]));
    assert!(res.unwrap() == CompleteMessage(MsgId(1), vec![1, 2, 3]));
    assert!(queue.cur_size == 0);
}
