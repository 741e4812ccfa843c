use unreliable_message::msgqueue::CompleteMessage;
use unreliable_message::msgqueue::MsgId;
use unreliable_message::msgqueue::MsgQueue;
use unreliable_message::sending::Fragmenter;

#[test]
fn split_exact_slices() {
    let mut f = Fragmenter::new(4, 1);
    let frags = f.split(&b"hello world".to_vec());
    assert_eq!(f.last_id, 1);
    assert_eq!(frags.len(), 3);

    assert_eq!((frags[0].0).0, 1);
    assert_eq!((frags[0].1).0, 1);
    assert_eq!((frags[0].1).1, 3);
    assert_eq!(frags[0].2, b"hell".to_vec());

    assert_eq!((frags[1].1).0, 2);
    assert_eq!(frags[1].2, b"o wo".to_vec());

    assert_eq!((frags[2].1).0, 3);
    assert_eq!((frags[2].1).1, 3);
    assert_eq!(frags[2].2, b"rld".to_vec());
}

#[test]
fn split_replicates_whole_slice_set() {
    let mut f = Fragmenter::new(2, 3);
    let frags = f.split(&vec![1, 2, 3]);
    // two slices, three replicas, replica by replica in slice order
    assert_eq!(frags.len(), 6);
    for r in 0..3 {
        assert_eq!((frags[2 * r].0).0, 1);
        assert_eq!((frags[2 * r].1).0, 1);
        assert_eq!((frags[2 * r].1).1, 2);
        assert_eq!(frags[2 * r].2, vec![1, 2]);
        assert_eq!((frags[2 * r + 1].1).0, 2);
        assert_eq!(frags[2 * r + 1].2, vec![3]);
    }
}

#[test]
fn split_empty_message_yields_nothing() {
    let mut f = Fragmenter::new(8, 2);
    let frags = f.split(&Vec::new());
    assert_eq!(frags.len(), 0);
    // the id was still consumed
    assert_eq!(f.last_id, 1);
}

#[test]
fn ids_strictly_increase() {
    let mut f = Fragmenter::new(8, 1);
    let a = f.split(&vec![1]);
    let b = f.split(&vec![2]);
    assert_eq!((a[0].0).0, 1);
    assert_eq!((b[0].0).0, 2);
}

#[test]
fn split_then_reassemble_round_trip() {
    let message = b"the quick brown fox jumps over the lazy dog".to_vec();
    let mut f = Fragmenter::new(5, 2);
    let frags = f.split(&message);

    let mut queue = MsgQueue::new(None);
    let mut completed = Vec::new();
    for chunk in frags {
        if let Some(m) = queue.insert_chunk(chunk) {
            completed.push(m);
        }
    }
    assert_eq!(completed.len(), 1);
    assert!(completed[0] == CompleteMessage(MsgId(1), message));
}
