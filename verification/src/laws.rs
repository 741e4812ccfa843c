//! The protocol-level guarantees of the reassembly queue, stated over the
//! queue's mathematical model and proved once and for all.

use vstd::prelude::*;

use crate::msgqueue::ChunkModel;
use crate::msgqueue::MessageModel;
use crate::msgqueue::QueueModel;
use crate::msgqueue::StageModel;
use crate::msgqueue::lemma_pruned_bytes_bound;
use crate::msgqueue::lemma_stage_index_unique;
use crate::msgqueue::merged_payload;
use crate::msgqueue::new_stage;
use crate::msgqueue::pieces_insert;
use crate::msgqueue::pieces_sorted;
use crate::msgqueue::stage_inv;
use crate::msgqueue::stage_ready;
use crate::msgqueue::lemma_pruned_bytes_le;
use crate::msgqueue::lemma_pruned_suffix;
use crate::msgqueue::lemma_publish_bytes_le;
use crate::msgqueue::lemma_publish_char;
use crate::msgqueue::lemma_pieces_insert_bytes;
use crate::msgqueue::lemma_queue_bytes_remove;
use crate::msgqueue::lemma_queue_bytes_update;
use crate::msgqueue::pruned;
use crate::msgqueue::pruned_stages;
use crate::msgqueue::queue_bytes;
use crate::msgqueue::queue_insert;
use crate::msgqueue::queue_inv;
use crate::msgqueue::stage_added;
use crate::msgqueue::stage_index_of;
use crate::msgqueue::stage_size;
use crate::msgqueue::stages_has_id;
use crate::msgqueue::stale;
use crate::sending::chunk_count;
use crate::sending::fragment_model;
use crate::sending::slice_model;
use vstd::arithmetic::div_mod::lemma_fundamental_div_mod;

verus! {

/// A queue that has never held or published anything.
pub open spec fn fresh_queue(max_size: Option<usize>) -> QueueModel {
    QueueModel { last_released: None, stages: Seq::empty(), max_size }
}

/// Capacity enforcement keeps the buffers sorted (it only drops a prefix).
proof fn lemma_pruned_sorted(q: QueueModel)
    requires
        queue_inv(q),
    ensures
        queue_inv(pruned(q)),
{
    match q.max_size {
        None => {},
        Some(m) => {
            lemma_pruned_suffix(q.stages, m as nat);
            let r = pruned_stages(q.stages, m as nat);
            let k = q.stages.len() - r.len();
            assert forall|i: int| 0 <= i < r.len() implies r[i] == q.stages[i + k] by {}
        },
    }
}

/// A fragment declared as its message's only piece, fed to a queue that has
/// never published or buffered anything, is returned as a complete message at
/// once, and becomes the publication high-water mark.
pub proof fn law_single_fragment_fresh(q: QueueModel, c: ChunkModel)
    requires
        q.last_released is None,
        q.stages.len() == 0,
        c.total == 1,
    ensures
        queue_insert(q, c).1 == Some((MessageModel { id: c.id, payload: c.payload })),
        queue_insert(q, c).0.last_released == Some(c.id),
        queue_insert(q, c).0.stages.len() == 0,
{
    assert(pruned(q).stages.len() == 0) by {
        match q.max_size {
            None => {},
            Some(m) => {
                assert(pruned_stages(q.stages, m as nat) == q.stages);
            },
        }
    }
}

/// A fragment of a message at or below the publication high-water mark — one
/// already published, or abandoned because a newer message completed — is
/// ignored: nothing is returned, no buffer is created or touched, and the
/// queue is left exactly as capacity enforcement alone would leave it. In
/// particular the tracked byte total never grows.
pub proof fn law_stale_fragment_ignored(q: QueueModel, c: ChunkModel, l: u64)
    requires
        q.last_released == Some(l),
        c.id <= l,
    ensures
        queue_insert(q, c).1 is None,
        queue_insert(q, c).0 == pruned(q),
        queue_bytes(queue_insert(q, c).0.stages) <= queue_bytes(q.stages),
        q.max_size is None ==> queue_insert(q, c).0 == q,
{
    match q.max_size {
        None => {},
        Some(m) => {
            lemma_pruned_bytes_le(q.stages, m as nat);
        },
    }
}

/// A single-piece message whose id is newer than everything published so far
/// completes at once: its id becomes the high-water mark and every still-open
/// buffer with an older id is dropped for good.
pub proof fn law_single_fragment_supersedes(q: QueueModel, c: ChunkModel)
    requires
        queue_inv(q),
        c.total == 1,
        !stale(q.last_released, c.id),
    ensures
        queue_insert(q, c).1 == Some((MessageModel { id: c.id, payload: c.payload })),
        queue_insert(q, c).0.last_released == Some(c.id),
        forall|i: int|
            0 <= i < queue_insert(q, c).0.stages.len() ==> (#[trigger] queue_insert(
                q,
                c,
            ).0.stages[i]).id > c.id,
{
    lemma_pruned_sorted(q);
    lemma_publish_char(pruned(q).stages, c.id);
}

/// With a byte bound configured, capacity enforcement at the head of every
/// insertion brings the tracked total back within the bound before the new
/// fragment is processed, and it evicts the open buffers with the smallest
/// message ids first (what survives is a suffix of the id-sorted buffers).
/// After the insertion the total exceeds the bound by at most the one
/// fragment just absorbed.
pub proof fn law_capacity_bound(q: QueueModel, c: ChunkModel, m: usize)
    requires
        queue_inv(q),
        q.max_size == Some(m),
    ensures
        queue_bytes(pruned(q).stages) <= m,
        pruned(q).stages == q.stages.skip(q.stages.len() - pruned(q).stages.len()),
        queue_bytes(queue_insert(q, c).0.stages) <= m + c.payload.len(),
{
    lemma_pruned_bytes_bound(q.stages, m as nat);
    lemma_pruned_suffix(q.stages, m as nat);
    let q1 = pruned(q);
    lemma_pruned_sorted(q);
    if stale(q1.last_released, c.id) {
    } else if c.total == 1 {
        lemma_publish_bytes_le(q1.stages, c.id);
    } else if stages_has_id(q1.stages, c.id) {
        let i = stage_index_of(q1.stages, c.id);
        let s2 = stage_added(q1.stages[i], c);
        lemma_pieces_insert_bytes(q1.stages[i].pieces, c);
        if s2.pieces.len() == s2.total {
            lemma_queue_bytes_remove(q1.stages, i);
            lemma_publish_bytes_le(q1.stages.remove(i), c.id);
        } else {
            lemma_queue_bytes_update(q1.stages, i, s2);
        }
    } else {
        crate::msgqueue::lemma_insert_pos_le(q1.stages, c.id);
        crate::msgqueue::lemma_queue_bytes_insert(
            q1.stages,
            crate::msgqueue::insert_pos(q1.stages, c.id),
            crate::msgqueue::new_stage(c),
        );
        assert(stage_size(crate::msgqueue::new_stage(c)) == c.payload.len()) by {
            assert(seq![c].drop_first() =~= Seq::<ChunkModel>::empty());
            assert(crate::msgqueue::stage_bytes(Seq::<ChunkModel>::empty()) == 0);
            assert(crate::msgqueue::stage_bytes(seq![c]) == c.payload.len());
        }
    }
}

/// Every message completed while feeding a sequence of fragments in order.
pub open spec fn completions(q: QueueModel, cs: Seq<ChunkModel>) -> Seq<MessageModel>
    decreases cs.len(),
{
    if cs.len() == 0 {
        Seq::empty()
    } else {
        let step = queue_insert(q, cs[0]);
        (match step.1 {
            Some(m) => seq![m],
            None => Seq::empty(),
        }) + completions(step.0, cs.drop_first())
    }
}

/// Fragment number `j` (0-based) of a message with the given id, split into
/// one piece per element of `payloads`.
pub open spec fn fragment_of(id: u64, payloads: Seq<Seq<u8>>, j: int) -> ChunkModel {
    ChunkModel {
        id,
        index: (j + 1) as u16,
        total: payloads.len() as u16,
        payload: payloads[j],
    }
}

/// The whole message: its fragment payloads concatenated in fragment order.
pub open spec fn flatten_all(payloads: Seq<Seq<u8>>) -> Seq<u8>
    decreases payloads.len(),
{
    if payloads.len() == 0 {
        Seq::empty()
    } else {
        payloads[0] + flatten_all(payloads.drop_first())
    }
}

/// `order` is an arrival order: a permutation of the fragment numbers
/// `0 .. k`.
pub open spec fn valid_order(order: Seq<int>, k: int) -> bool {
    &&& order.len() == k
    &&& forall|i: int| 0 <= i < k ==> 0 <= #[trigger] order[i] < k
    &&& forall|i: int, j: int| 0 <= i < j < k ==> order[i] != order[j]
}

/// The open buffer holds exactly the fragments whose numbers are in `done`.
spec fn partial_of(st: StageModel, id: u64, payloads: Seq<Seq<u8>>, done: Seq<int>) -> bool {
    &&& st.id == id
    &&& st.total == payloads.len() as u16
    &&& st.pieces.len() == done.len()
    &&& forall|i: int|
        0 <= i < st.pieces.len() ==> exists|j: int|
            0 <= j < done.len() && (#[trigger] st.pieces[i]) == fragment_of(
                id,
                payloads,
                done[j],
            )
}

/// Absorbing a fragment with a fresh index grows the buffer by exactly that
/// piece, keeps it sorted, and adds nothing else.
proof fn lemma_pieces_insert_fresh(ps: Seq<ChunkModel>, c: ChunkModel)
    requires
        pieces_sorted(ps),
        forall|i: int| 0 <= i < ps.len() ==> (#[trigger] ps[i]).index != c.index,
    ensures
        pieces_insert(ps, c).len() == ps.len() + 1,
        pieces_sorted(pieces_insert(ps, c)),
        forall|i: int|
            0 <= i < pieces_insert(ps, c).len() ==> (#[trigger] pieces_insert(ps, c)[i]) == c
                || ps.contains(pieces_insert(ps, c)[i]),
    decreases ps.len(),
{
    let r = pieces_insert(ps, c);
    if ps.len() == 0 {
        assert(r =~= seq![c]);
    } else if c.index < ps[0].index {
        assert(r =~= seq![c] + ps);
        assert forall|i: int| 0 <= i < r.len() implies (#[trigger] r[i]) == c || ps.contains(
            r[i],
        ) by {
            if i > 0 {
                assert(r[i] == ps[i - 1]);
            }
        }
    } else {
        let rest = ps.drop_first();
        assert(pieces_sorted(rest)) by {
            assert forall|i: int, j: int| 0 <= i < j < rest.len() implies rest[i].index
                < rest[j].index by {
                assert(rest[i] == ps[i + 1]);
                assert(rest[j] == ps[j + 1]);
            }
        }
        assert forall|i: int| 0 <= i < rest.len() implies (#[trigger] rest[i]).index
            != c.index by {
            assert(rest[i] == ps[i + 1]);
        }
        lemma_pieces_insert_fresh(rest, c);
        let rr = pieces_insert(rest, c);
        assert(r =~= seq![ps[0]] + rr);
        assert forall|i: int| 0 <= i < r.len() implies (#[trigger] r[i]) == c || ps.contains(
            r[i],
        ) by {
            if i == 0 {
                assert(ps[0] == ps[0]);
                assert(ps.contains(ps[0]));
            } else {
                assert(r[i] == rr[i - 1]);
                if rr[i - 1] == c {
                } else {
                    let w = choose|w: int| 0 <= w < rest.len() && rest[w] == rr[i - 1];
                    assert(ps[w + 1] == rr[i - 1]);
                }
            }
        }
        assert forall|i: int| 0 <= i < rr.len() implies ps[0].index < (
        #[trigger] rr[i]).index by {
            if rr[i] == c {
            } else {
                let w = choose|w: int| 0 <= w < rest.len() && rest[w] == rr[i];
                assert(rest[w] == ps[w + 1]);
                assert(ps[0].index < ps[w + 1].index);
            }
        }
        assert forall|i: int, j: int| 0 <= i < j < r.len() implies r[i].index
            < r[j].index by {
            if i == 0 {
                assert(r[j] == rr[j - 1]);
            } else {
                assert(r[i] == rr[i - 1]);
                assert(r[j] == rr[j - 1]);
            }
        }
    }
}

/// In a strictly index-sorted buffer, positions bound indices from below.
proof fn lemma_sorted_lower(ps: Seq<ChunkModel>, i: int)
    requires
        pieces_sorted(ps),
        0 <= i < ps.len(),
        ps[0].index >= 1,
    ensures
        ps[i].index >= i + 1,
    decreases i,
{
    if i > 0 {
        lemma_sorted_lower(ps, i - 1);
        assert(ps[i - 1].index < ps[i].index);
    }
}

/// In a strictly index-sorted buffer, positions bound indices from above.
proof fn lemma_sorted_upper(ps: Seq<ChunkModel>, i: int, k: int)
    requires
        pieces_sorted(ps),
        ps.len() == k,
        0 <= i < k,
        ps[k - 1].index <= k,
    ensures
        ps[i].index <= i + 1,
    decreases k - i,
{
    if i < k - 1 {
        lemma_sorted_upper(ps, i + 1, k);
        assert(ps[i].index < ps[i + 1].index);
    }
}

/// A sorted buffer of `k` distinct pieces whose indices all lie in `1 ..= k`
/// holds index `i + 1` exactly at position `i`.
proof fn lemma_sorted_complete_indices(ps: Seq<ChunkModel>, k: int)
    requires
        pieces_sorted(ps),
        ps.len() == k,
        1 <= k,
        forall|i: int| 0 <= i < k ==> 1 <= (#[trigger] ps[i]).index <= k,
    ensures
        forall|i: int| 0 <= i < k ==> (#[trigger] ps[i]).index == i + 1,
{
    assert forall|i: int| 0 <= i < k implies (#[trigger] ps[i]).index == i + 1 by {
        lemma_sorted_lower(ps, i);
        lemma_sorted_upper(ps, i, k);
    }
}

/// Merging pieces whose payloads are, position by position, the fragment
/// payloads gives the whole message.
proof fn lemma_merged_fragments(ps: Seq<ChunkModel>, payloads: Seq<Seq<u8>>)
    requires
        ps.len() == payloads.len(),
        forall|i: int| 0 <= i < ps.len() ==> (#[trigger] ps[i]).payload == payloads[i],
    ensures
        merged_payload(ps) == flatten_all(payloads),
    decreases ps.len(),
{
    if ps.len() > 0 {
        let pr = ps.drop_first();
        let qr = payloads.drop_first();
        assert forall|i: int| 0 <= i < pr.len() implies (#[trigger] pr[i]).payload == qr[i] by {
            assert(pr[i] == ps[i + 1]);
        }
        lemma_merged_fragments(pr, qr);
    }
}

/// Feeding the remaining fragments of a partially buffered message — in any
/// order — produces exactly the one completed message.
proof fn lemma_feed_rest(id: u64, payloads: Seq<Seq<u8>>, done: Seq<int>, rest: Seq<int>, q: QueueModel)
    requires
        2 <= payloads.len() <= 0xFFFF,
        valid_order(done + rest, payloads.len() as int),
        1 <= done.len() < payloads.len(),
        q.last_released is None,
        q.max_size is None,
        q.stages.len() == 1,
        queue_inv(q),
        partial_of(q.stages[0], id, payloads, done),
    ensures
        completions(q, rest.map_values(|j: int| fragment_of(id, payloads, j))) == seq![
            (MessageModel { id, payload: flatten_all(payloads) }),
        ],
    decreases rest.len(),
{
    let k = payloads.len() as int;
    let order = done + rest;
    assert(rest.len() == k - done.len());
    let cs = rest.map_values(|j: int| fragment_of(id, payloads, j));
    let j0 = rest[0];
    assert(order[done.len() as int] == j0);
    assert(0 <= j0 < k);
    let c = fragment_of(id, payloads, j0);
    assert(cs[0] == c);
    let st = q.stages[0];
    assert(c.total == k as u16);
    assert(c.total != 1);
    assert(pruned(q) == q);
    assert(!stale(q.last_released, c.id));
    lemma_stage_index_unique(q.stages, id, 0);
    assert(stage_index_of(q.stages, id) == 0);
    assert forall|i: int| 0 <= i < st.pieces.len() implies (#[trigger] st.pieces[i]).index
        != c.index by {
        let j = choose|j: int|
            0 <= j < done.len() && st.pieces[i] == fragment_of(id, payloads, done[j]);
        assert(order[j] == done[j]);
        assert(0 <= done[j] < k);
        assert(done[j] != j0);
        assert(st.pieces[i].index == (done[j] + 1) as u16);
    }
    let s2 = stage_added(st, c);
    assert(stage_inv(st));
    lemma_pieces_insert_fresh(st.pieces, c);
    assert(s2.pieces.len() == done.len() + 1);
    assert forall|i: int| 0 <= i < s2.pieces.len() implies exists|j: int|
        0 <= j < k && (#[trigger] s2.pieces[i]) == fragment_of(id, payloads, j) by {
        if s2.pieces[i] == c {
            assert(s2.pieces[i] == fragment_of(id, payloads, j0));
        } else {
            let w = choose|w: int| 0 <= w < st.pieces.len() && st.pieces[w] == s2.pieces[i];
            let j = choose|j: int|
                0 <= j < done.len() && st.pieces[w] == fragment_of(id, payloads, done[j]);
            assert(order[j] == done[j]);
            assert(s2.pieces[i] == fragment_of(id, payloads, done[j]));
        }
    }
    if done.len() + 1 == k {
        assert(stage_ready(s2));
        assert(rest.len() == 1);
        assert forall|i: int| 0 <= i < k implies 1 <= (#[trigger] s2.pieces[i]).index <= k by {
            let j = choose|j: int| 0 <= j < k && s2.pieces[i] == fragment_of(id, payloads, j);
            assert(s2.pieces[i].index == (j + 1) as u16);
        }
        lemma_sorted_complete_indices(s2.pieces, k);
        assert forall|i: int| 0 <= i < k implies (#[trigger] s2.pieces[i]).payload
            == payloads[i] by {
            let j = choose|j: int| 0 <= j < k && s2.pieces[i] == fragment_of(id, payloads, j);
            assert(s2.pieces[i].index == (j + 1) as u16);
            assert((j + 1) as u16 == i + 1);
            assert(j == i);
        }
        lemma_merged_fragments(s2.pieces, payloads);
        let step = queue_insert(q, c);
        assert(step.1 == Some((MessageModel { id, payload: flatten_all(payloads) })));
        assert(cs.drop_first() =~= Seq::<ChunkModel>::empty());
        assert(completions(step.0, cs.drop_first()) =~= Seq::<MessageModel>::empty());
        assert(completions(q, cs) =~= seq![
            (MessageModel { id, payload: flatten_all(payloads) }),
        ]);
    } else {
        assert(!stage_ready(s2));
        let step = queue_insert(q, c);
        assert(step.1 is None);
        let q2 = step.0;
        assert(q2.stages == q.stages.update(0, s2));
        assert(q2.stages =~= seq![s2]);
        assert(q2.last_released is None);
        assert(q2.max_size is None);
        assert(stage_inv(s2)) by {
            assert forall|i: int| 0 <= i < s2.pieces.len() implies (#[trigger] s2.pieces[i]).id
                == s2.id by {
                let j = choose|j: int|
                    0 <= j < k && s2.pieces[i] == fragment_of(id, payloads, j);
            }
        }
        assert(queue_inv(q2));
        let done2 = done.push(j0);
        assert(done2 + rest.drop_first() =~= order);
        assert(partial_of(q2.stages[0], id, payloads, done2)) by {
            assert forall|i: int| 0 <= i < s2.pieces.len() implies exists|j: int|
                0 <= j < done2.len() && (#[trigger] s2.pieces[i]) == fragment_of(
                    id,
                    payloads,
                    done2[j],
                ) by {
                if s2.pieces[i] == c {
                    assert(done2[done.len() as int] == j0);
                    assert(s2.pieces[i] == fragment_of(id, payloads, done2[done.len() as int]));
                } else {
                    let w = choose|w: int|
                        0 <= w < st.pieces.len() && st.pieces[w] == s2.pieces[i];
                    let j = choose|j: int|
                        0 <= j < done.len() && st.pieces[w] == fragment_of(
                            id,
                            payloads,
                            done[j],
                        );
                    assert(done2[j] == done[j]);
                    assert(s2.pieces[i] == fragment_of(id, payloads, done2[j]));
                }
            }
        }
        lemma_feed_rest(id, payloads, done2, rest.drop_first(), q2);
        assert(cs.drop_first() =~= rest.drop_first().map_values(
            |j: int| fragment_of(id, payloads, j),
        ));
        assert(completions(q, cs) =~= completions(q2, cs.drop_first()));
    }
}

/// Feeding every fragment of a message split into `k` pieces to a fresh,
/// unbounded queue — in any arrival order — yields exactly one completion,
/// whose payload is the concatenation of the fragment payloads in fragment
/// index order, not in arrival order.
pub proof fn law_any_order_one_completion(id: u64, payloads: Seq<Seq<u8>>, order: Seq<int>)
    requires
        1 <= payloads.len() <= 0xFFFF,
        valid_order(order, payloads.len() as int),
    ensures
        completions(
            fresh_queue(None),
            order.map_values(|j: int| fragment_of(id, payloads, j)),
        ) == seq![(MessageModel { id, payload: flatten_all(payloads) })],
{
    let k = payloads.len() as int;
    let q0 = fresh_queue(None);
    let cs = order.map_values(|j: int| fragment_of(id, payloads, j));
    assert(0 <= order[0] < k);
    let c = fragment_of(id, payloads, order[0]);
    assert(cs[0] == c);
    if k == 1 {
        assert(c.total == 1);
        assert(order[0] == 0);
        law_single_fragment_fresh(q0, c);
        assert(payloads.drop_first().len() == 0);
        assert(flatten_all(payloads.drop_first()) =~= Seq::<u8>::empty());
        assert(payloads[0] + Seq::<u8>::empty() =~= payloads[0]);
        assert(flatten_all(payloads) == payloads[0]);
        let step = queue_insert(q0, c);
        assert(cs.drop_first() =~= Seq::<ChunkModel>::empty());
        assert(completions(step.0, cs.drop_first()) =~= Seq::<MessageModel>::empty());
        assert(completions(q0, cs) =~= seq![
            (MessageModel { id, payload: flatten_all(payloads) }),
        ]);
    } else {
        assert(c.total == k as u16);
        assert(c.total != 1);
        assert(pruned(q0) == q0);
        assert(!stale(q0.last_released, c.id));
        assert(!stages_has_id(q0.stages, c.id));
        let step = queue_insert(q0, c);
        assert(step.1 is None);
        let q2 = step.0;
        assert(crate::msgqueue::insert_pos(q0.stages, c.id) == 0);
        assert(q2.stages =~= seq![new_stage(c)]);
        assert(stage_inv(new_stage(c))) by {
            assert(new_stage(c).pieces =~= seq![c]);
        }
        assert(queue_inv(q2));
        let done = seq![order[0]];
        assert(done + order.drop_first() =~= order);
        assert(partial_of(q2.stages[0], id, payloads, done)) by {
            assert(new_stage(c).pieces =~= seq![c]);
            assert forall|i: int| 0 <= i < new_stage(c).pieces.len() implies exists|j: int|
                0 <= j < done.len() && (#[trigger] new_stage(c).pieces[i]) == fragment_of(
                    id,
                    payloads,
                    done[j],
                ) by {
                assert(done[0] == order[0]);
                assert(new_stage(c).pieces[0] == fragment_of(id, payloads, done[0]));
            }
        }
        lemma_feed_rest(id, payloads, done, order.drop_first(), q2);
        assert(cs.drop_first() =~= order.drop_first().map_values(
            |j: int| fragment_of(id, payloads, j),
        ));
        assert(completions(q0, cs) =~= completions(q2, cs.drop_first()));
    }
}

/// The slices of a payload, taken in order, reproduce it byte for byte.
proof fn lemma_slices_cover(msg: Seq<u8>, piece: nat, n: int)
    requires
        piece >= 1,
        msg.len() >= 1,
        (n - 1) * piece < msg.len() <= n * piece,
    ensures
        flatten_all(Seq::new(n as nat, |j: int| slice_model(msg, piece, j))) == msg,
    decreases n,
{
    let len = msg.len() as int;
    assert(n >= 1) by (nonlinear_arith)
        requires
            piece >= 1,
            len <= n * piece,
            len >= 1,
    ;
    let payloads = Seq::new(n as nat, |j: int| slice_model(msg, piece, j));
    if n == 1 {
        assert(n * piece == piece) by (nonlinear_arith)
            requires
                n == 1,
        ;
        assert(len <= piece);
        assert(payloads[0] == slice_model(msg, piece, 0));
        assert(0 * (piece as int) == 0) by (nonlinear_arith);
        assert((0 + 1) * (piece as int) == piece as int) by (nonlinear_arith);
        assert(slice_model(msg, piece, 0) =~= msg);
        assert(payloads.drop_first() =~= Seq::<Seq<u8>>::empty());
        assert(flatten_all(payloads.drop_first()) == Seq::<u8>::empty());
        assert(msg + Seq::<u8>::empty() =~= msg);
    } else {
        assert((n - 1) * piece == (n - 2) * piece + piece) by (nonlinear_arith);
        assert(n * piece == (n - 1) * piece + piece) by (nonlinear_arith);
        assert((n - 1) * piece >= piece) by (nonlinear_arith)
            requires
                n >= 2,
                piece >= 1,
        ;
        assert(piece < len);
        let msg2 = msg.skip(piece as int);
        assert(msg2.len() == len - piece);
        lemma_slices_cover(msg2, piece, n - 1);
        let payloads2 = Seq::new((n - 1) as nat, |j: int| slice_model(msg2, piece, j));
        assert forall|j: int| 0 <= j < n - 1 implies payloads.drop_first()[j] == payloads2[j] by {
            assert(payloads.drop_first()[j] == payloads[j + 1]);
            assert(payloads[j + 1] == slice_model(msg, piece, j + 1));
            assert(payloads2[j] == slice_model(msg2, piece, j));
            assert((j + 1) * piece == j * piece + piece) by (nonlinear_arith);
            assert((j + 2) * piece == (j + 1) * piece + piece) by (nonlinear_arith);
            assert(j * piece >= 0) by (nonlinear_arith)
                requires
                    j >= 0,
                    piece >= 0,
            ;
            assert((j + 1) * piece <= (n - 1) * piece) by (nonlinear_arith)
                requires
                    j + 1 <= n - 1,
                    piece >= 0,
            ;
            assert(slice_model(msg, piece, j + 1) =~= slice_model(msg2, piece, j));
        }
        assert(payloads.drop_first() =~= payloads2);
        assert(payloads[0] == slice_model(msg, piece, 0));
        assert(slice_model(msg, piece, 0) =~= msg.take(piece as int));
        assert(msg.take(piece as int) + msg2 =~= msg);
    }
}

/// The wire contract end to end: the fragments `split` produces for one
/// replica of a message, fed to a fresh unbounded queue in any arrival order,
/// complete exactly once and reproduce the message byte for byte.
pub proof fn law_split_reassembles(msg: Seq<u8>, piece: nat, id: u64, order: Seq<int>)
    requires
        piece >= 1,
        msg.len() >= 1,
        chunk_count(msg.len(), piece) <= u16::MAX,
        valid_order(order, chunk_count(msg.len(), piece) as int),
    ensures
        completions(
            fresh_queue(None),
            order.map_values(
                |j: int| fragment_model(msg, piece, id, chunk_count(msg.len(), piece) as int, j),
            ),
        ) == seq![(MessageModel { id, payload: msg })],
{
    let len = msg.len() as int;
    let n = chunk_count(msg.len(), piece) as int;
    assert(n == (len - 1) / (piece as int) + 1);
    lemma_fundamental_div_mod(len - 1, piece as int);
    assert((n - 1) * piece < len <= n * piece) by (nonlinear_arith)
        requires
            n - 1 == (len - 1) / (piece as int),
            piece >= 1,
            len >= 1,
            len - 1 == (piece as int) * ((len - 1) / (piece as int)) + (len - 1) % (piece as int),
            0 <= (len - 1) % (piece as int) < piece as int,
    ;
    let payloads = Seq::new(n as nat, |j: int| slice_model(msg, piece, j));
    lemma_slices_cover(msg, piece, n);
    assert(payloads.len() == n);
    let a = order.map_values(|j: int| fragment_model(msg, piece, id, n, j));
    let b = order.map_values(|j: int| fragment_of(id, payloads, j));
    assert forall|i: int| 0 <= i < order.len() implies #[trigger] a[i] == b[i] by {
        assert(0 <= order[i] < n);
        assert(payloads[order[i]] == slice_model(msg, piece, order[i]));
    }
    assert(a =~= b);
    law_any_order_one_completion(id, payloads, order);
}

} // verus!
