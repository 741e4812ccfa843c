//! Per-peer reassembly of fragmented messages.
//!
//! A [`MsgQueue`] receives [`MsgChunk`]s (fragments) in arbitrary order and
//! hands back a [`CompleteMessage`] as soon as every piece of some message has
//! arrived. It enforces a most-recent-completes-wins policy: once a message is
//! published, fragments of any message with an id no greater than the
//! published one are ignored, and still-open buffers for older messages are
//! abandoned. An optional byte bound caps its memory, evicting the oldest
//! incomplete message first.

use vstd::prelude::*;

verus! {

/// A message ordinal: unique and strictly increasing per sender.
#[derive(Clone, Copy, PartialEq, Eq, Structural, Debug)]
pub struct MsgId(pub u64);

/// Position of a fragment inside its message: `(index, total)`, 1-based.
#[derive(Clone, Copy, PartialEq, Eq, Structural, Debug)]
pub struct PieceNum(pub u16, pub u16);

/// One wire fragment: message id, position, payload slice.
#[derive(Clone, Debug)]
pub struct MsgChunk(pub MsgId, pub PieceNum, pub Vec<u8>);

/// A fully reassembled message: id and the concatenated payload.
#[derive(Clone, Debug)]
pub struct CompleteMessage(pub MsgId, pub Vec<u8>);

/// Mathematical value of a [`MsgChunk`].
pub ghost struct ChunkModel {
    pub id: u64,
    pub index: u16,
    pub total: u16,
    pub payload: Seq<u8>,
}

/// Mathematical value of a [`CompleteMessage`].
pub ghost struct MessageModel {
    pub id: u64,
    pub payload: Seq<u8>,
}

/// Mathematical value of a [`MsgStage`]: one in-flight partial message.
pub ghost struct StageModel {
    pub id: u64,
    pub total: u16,
    pub pieces: Seq<ChunkModel>,
}

/// Mathematical value of a [`MsgQueue`].
pub ghost struct QueueModel {
    pub last_released: Option<u64>,
    pub stages: Seq<StageModel>,
    pub max_size: Option<usize>,
}

impl View for MsgChunk {
    type V = ChunkModel;

    open spec fn view(&self) -> ChunkModel {
        ChunkModel { id: self.0.0, index: self.1.0, total: self.1.1, payload: self.2@ }
    }
}

impl View for CompleteMessage {
    type V = MessageModel;

    open spec fn view(&self) -> MessageModel {
        MessageModel { id: self.0.0, payload: self.1@ }
    }
}

impl PartialEq for CompleteMessage {
    fn eq(&self, other: &CompleteMessage) -> (r: bool) {
        if self.0.0 != other.0.0 || self.1.len() != other.1.len() {
            return false;
        }
        let mut i: usize = 0;
        while i < self.1.len()
            invariant
                i <= self.1.len(),
                self.1.len() == other.1.len(),
                self.1@.take(i as int) == other.1@.take(i as int),
            decreases self.1.len() - i,
        {
            if self.1[i] != other.1[i] {
                proof {
                    assert(self.1@[i as int] != other.1@[i as int]);
                }
                return false;
            }
            proof {
                assert(self.1@.take(i as int + 1) =~= other.1@.take(i as int + 1));
            }
            i = i + 1;
        }
        proof {
            assert(self.1@.take(i as int) =~= self.1@);
            assert(other.1@.take(i as int) =~= other.1@);
        }
        true
    }
}

impl Eq for CompleteMessage {

}

impl vstd::std_specs::cmp::PartialEqSpecImpl for CompleteMessage {
    open spec fn obeys_eq_spec() -> bool {
        true
    }

    open spec fn eq_spec(&self, other: &CompleteMessage) -> bool {
        self@ == other@
    }
}

/// Total bytes held by a sequence of pieces.
pub open spec fn stage_bytes(pieces: Seq<ChunkModel>) -> nat
    decreases pieces.len(),
{
    if pieces.len() == 0 {
        0
    } else {
        pieces[0].payload.len() + stage_bytes(pieces.drop_first())
    }
}

/// Total bytes held by a partial message.
pub open spec fn stage_size(s: StageModel) -> nat {
    stage_bytes(s.pieces)
}

/// Total bytes held across all open partial messages.
pub open spec fn queue_bytes(stages: Seq<StageModel>) -> nat
    decreases stages.len(),
{
    if stages.len() == 0 {
        0
    } else {
        stage_size(stages[0]) + queue_bytes(stages.drop_first())
    }
}

/// Pieces are strictly sorted by fragment index (each index occurs at most
/// once).
pub open spec fn pieces_sorted(pieces: Seq<ChunkModel>) -> bool {
    forall|i: int, j: int| 0 <= i < j < pieces.len() ==> pieces[i].index < pieces[j].index
}

/// Buffers are strictly sorted by message id (each id occurs at most once).
pub open spec fn stages_sorted(stages: Seq<StageModel>) -> bool {
    forall|i: int, j: int| 0 <= i < j < stages.len() ==> stages[i].id < stages[j].id
}

/// Well-formedness of a partial message: at least one piece, every piece
/// belongs to this message, and pieces are strictly sorted by index (so each
/// index occurs at most once).
pub open spec fn stage_inv(s: StageModel) -> bool {
    &&& s.pieces.len() >= 1
    &&& forall|i: int| 0 <= i < s.pieces.len() ==> (#[trigger] s.pieces[i]).id == s.id
    &&& pieces_sorted(s.pieces)
}

/// Well-formedness of a queue: every open buffer is well formed, buffers are
/// strictly sorted by message id (so each id occurs at most once), and no
/// buffer is as old as the most recently published message.
pub open spec fn queue_inv(q: QueueModel) -> bool {
    &&& forall|i: int| 0 <= i < q.stages.len() ==> stage_inv(#[trigger] q.stages[i])
    &&& stages_sorted(q.stages)
    &&& match q.last_released {
        Some(l) => forall|i: int| 0 <= i < q.stages.len() ==> (#[trigger] q.stages[i]).id > l,
        None => true,
    }
}

/// A fragment is stale when a message with the same or a newer id has already
/// been published.
pub open spec fn stale(last_released: Option<u64>, id: u64) -> bool {
    match last_released {
        Some(l) => l >= id,
        None => false,
    }
}

/// Whether some piece with this index is already stored.
pub open spec fn stage_has_index(s: StageModel, index: u16) -> bool {
    exists|i: int| 0 <= i < s.pieces.len() && (#[trigger] s.pieces[i]).index == index
}

/// Insert a piece into an index-sorted piece sequence, keeping it sorted; a
/// piece whose index is already present leaves the sequence unchanged.
pub open spec fn pieces_insert(pieces: Seq<ChunkModel>, c: ChunkModel) -> Seq<ChunkModel>
    decreases pieces.len(),
{
    if pieces.len() == 0 {
        seq![c]
    } else if c.index < pieces[0].index {
        seq![c] + pieces
    } else if c.index == pieces[0].index {
        pieces
    } else {
        seq![pieces[0]] + pieces_insert(pieces.drop_first(), c)
    }
}

/// A partial message after absorbing one fragment (duplicates are no-ops).
pub open spec fn stage_added(s: StageModel, c: ChunkModel) -> StageModel {
    StageModel { id: s.id, total: s.total, pieces: pieces_insert(s.pieces, c) }
}

/// A partial message is ready when it holds as many distinct pieces as its
/// declared total.
pub open spec fn stage_ready(s: StageModel) -> bool {
    s.pieces.len() == s.total
}

/// The fresh buffer created by the first fragment of a message.
pub open spec fn new_stage(c: ChunkModel) -> StageModel {
    StageModel { id: c.id, total: c.total, pieces: seq![c] }
}

/// The reassembled payload: concatenation of the stored pieces in sequence
/// order, which for a sorted buffer is ascending fragment-index order.
pub open spec fn merged_payload(pieces: Seq<ChunkModel>) -> Seq<u8>
    decreases pieces.len(),
{
    if pieces.len() == 0 {
        Seq::empty()
    } else {
        pieces[0].payload + merged_payload(pieces.drop_first())
    }
}

/// Whether some open buffer has this message id.
pub open spec fn stages_has_id(stages: Seq<StageModel>, id: u64) -> bool {
    exists|i: int| 0 <= i < stages.len() && (#[trigger] stages[i]).id == id
}

/// The index of the open buffer with this message id (unique when the queue
/// invariant holds).
pub open spec fn stage_index_of(stages: Seq<StageModel>, id: u64) -> int {
    choose|i: int| 0 <= i < stages.len() && (#[trigger] stages[i]).id == id
}

/// Where a buffer with this id belongs in an id-sorted buffer sequence that
/// does not contain the id yet: just after all smaller ids.
pub open spec fn insert_pos(stages: Seq<StageModel>, id: u64) -> int
    decreases stages.len(),
{
    if stages.len() == 0 {
        0
    } else if stages[0].id > id {
        0
    } else {
        1 + insert_pos(stages.drop_first(), id)
    }
}

/// Buffers surviving a publication: publication drops every buffer whose id
/// does not exceed the published one (for an id-sorted sequence, a prefix).
pub open spec fn stages_after_publish(stages: Seq<StageModel>, id: u64) -> Seq<StageModel>
    decreases stages.len(),
{
    if stages.len() == 0 {
        stages
    } else if stages[0].id <= id {
        stages_after_publish(stages.drop_first(), id)
    } else {
        stages
    }
}

/// The queue after publishing the message with this id.
pub open spec fn published(q: QueueModel, id: u64) -> QueueModel {
    QueueModel {
        last_released: Some(id),
        stages: stages_after_publish(q.stages, id),
        max_size: q.max_size,
    }
}

/// Buffers surviving capacity enforcement: the oldest (front) buffer is
/// evicted until the byte bound is met or nothing is left.
pub open spec fn pruned_stages(stages: Seq<StageModel>, max: nat) -> Seq<StageModel>
    decreases stages.len(),
{
    if stages.len() == 0 || queue_bytes(stages) <= max {
        stages
    } else {
        pruned_stages(stages.drop_first(), max)
    }
}

/// The queue after capacity enforcement; a queue without a bound is untouched.
pub open spec fn pruned(q: QueueModel) -> QueueModel {
    match q.max_size {
        None => q,
        Some(m) => QueueModel {
            last_released: q.last_released,
            stages: pruned_stages(q.stages, m as nat),
            max_size: q.max_size,
        },
    }
}

/// The full effect of feeding one fragment to a queue: the new queue state and
/// the completed message, if this fragment finished one. In order: capacity
/// enforcement, staleness rejection, the single-fragment fast path,
/// accumulation into an existing buffer, or creation of a new buffer.
pub open spec fn queue_insert(q: QueueModel, c: ChunkModel) -> (QueueModel, Option<MessageModel>) {
    let q1 = pruned(q);
    if stale(q1.last_released, c.id) {
        (q1, None)
    } else if c.total == 1 {
        (published(q1, c.id), Some(MessageModel { id: c.id, payload: c.payload }))
    } else if stages_has_id(q1.stages, c.id) {
        let i = stage_index_of(q1.stages, c.id);
        let s2 = stage_added(q1.stages[i], c);
        if stage_ready(s2) {
            (
                published(
                    QueueModel {
                        last_released: q1.last_released,
                        stages: q1.stages.remove(i),
                        max_size: q1.max_size,
                    },
                    c.id,
                ),
                Some(MessageModel { id: c.id, payload: merged_payload(s2.pieces) }),
            )
        } else {
            (
                QueueModel {
                    last_released: q1.last_released,
                    stages: q1.stages.update(i, s2),
                    max_size: q1.max_size,
                },
                None,
            )
        }
    } else {
        (
            QueueModel {
                last_released: q1.last_released,
                stages: q1.stages.insert(insert_pos(q1.stages, c.id), new_stage(c)),
                max_size: q1.max_size,
            },
            None,
        )
    }
}

/// Inserting one piece grows the byte total by that piece's payload length.
pub proof fn lemma_stage_bytes_insert(pieces: Seq<ChunkModel>, p: int, c: ChunkModel)
    requires
        0 <= p <= pieces.len(),
    ensures
        stage_bytes(pieces.insert(p, c)) == stage_bytes(pieces) + c.payload.len(),
    decreases pieces.len(),
{
    if p == 0 {
        assert(pieces.insert(0, c)[0] == c);
        assert(pieces.insert(0, c).drop_first() =~= pieces);
    } else {
        let rest = pieces.drop_first();
        lemma_stage_bytes_insert(rest, p - 1, c);
        assert(pieces.insert(p, c)[0] == pieces[0]);
        assert(pieces.insert(p, c).drop_first() =~= rest.insert(p - 1, c));
    }
}

/// A fragment whose index is already stored leaves the piece sequence as it
/// was.
pub proof fn lemma_pieces_insert_dup(pieces: Seq<ChunkModel>, c: ChunkModel)
    requires
        pieces_sorted(pieces),
        exists|i: int| 0 <= i < pieces.len() && (#[trigger] pieces[i]).index == c.index,
    ensures
        pieces_insert(pieces, c) == pieces,
    decreases pieces.len(),
{
    let k = choose|i: int| 0 <= i < pieces.len() && (#[trigger] pieces[i]).index == c.index;
    if c.index == pieces[0].index {
    } else {
        assert(pieces[0].index < pieces[k].index);
        let rest = pieces.drop_first();
        assert(rest[k - 1].index == c.index);
        lemma_pieces_insert_dup(rest, c);
        assert(seq![pieces[0]] + rest =~= pieces);
    }
}

/// A fragment with a fresh index lands at the position that keeps the pieces
/// sorted.
pub proof fn lemma_pieces_insert_at(pieces: Seq<ChunkModel>, p: int, c: ChunkModel)
    requires
        0 <= p <= pieces.len(),
        forall|j: int| 0 <= j < p ==> (#[trigger] pieces[j]).index < c.index,
        p < pieces.len() ==> pieces[p].index > c.index,
    ensures
        pieces_insert(pieces, c) == pieces.insert(p, c),
    decreases pieces.len(),
{
    if pieces.len() == 0 {
        assert(seq![c] =~= pieces.insert(0, c));
    } else if p == 0 {
        assert(seq![c] + pieces =~= pieces.insert(0, c));
    } else {
        lemma_pieces_insert_at(pieces.drop_first(), p - 1, c);
        assert(seq![pieces[0]] + pieces.drop_first().insert(p - 1, c) =~= pieces.insert(p, c));
    }
}

/// Inserting at the position found for a fresh index keeps the pieces sorted.
pub proof fn lemma_sorted_insert(pieces: Seq<ChunkModel>, p: int, c: ChunkModel)
    requires
        pieces_sorted(pieces),
        0 <= p <= pieces.len(),
        forall|j: int| 0 <= j < p ==> (#[trigger] pieces[j]).index < c.index,
        p < pieces.len() ==> pieces[p].index > c.index,
    ensures
        pieces_sorted(pieces.insert(p, c)),
{
    pieces.insert_ensures(p, c);
    let r = pieces.insert(p, c);
    assert forall|i: int, j: int| 0 <= i < j < r.len() implies r[i].index < r[j].index by {
        if i < p {
            assert(r[i] == pieces[i]);
        }
        if j < p {
            assert(r[j] == pieces[j]);
        }
        if i > p {
            assert(r[i] == pieces[i - 1]);
        }
        if j > p {
            assert(r[j] == pieces[j - 1]);
        }
    }
}

/// Concatenating one more piece onto a partial merge.
pub proof fn lemma_merged_take_succ(pieces: Seq<ChunkModel>, i: int)
    requires
        0 <= i < pieces.len(),
    ensures
        merged_payload(pieces.take(i + 1)) == merged_payload(pieces.take(i)) + pieces[i].payload,
    decreases i,
{
    if i == 0 {
        assert(pieces.take(1) =~= seq![pieces[0]]);
        assert(seq![pieces[0]].drop_first() =~= Seq::<ChunkModel>::empty());
        assert(pieces.take(0) =~= Seq::<ChunkModel>::empty());
        assert(merged_payload(pieces.take(0)) + pieces[0].payload =~= pieces[0].payload);
        assert(merged_payload(seq![pieces[0]]) =~= pieces[0].payload);
    } else {
        let rest = pieces.drop_first();
        lemma_merged_take_succ(rest, i - 1);
        assert(pieces.take(i + 1)[0] == pieces[0]);
        assert(pieces.take(i)[0] == pieces[0]);
        assert(pieces.take(i + 1).drop_first() =~= rest.take(i));
        assert(pieces.take(i).drop_first() =~= rest.take(i - 1));
        assert((pieces[0].payload + merged_payload(rest.take(i - 1))) + rest[i - 1].payload =~= pieces[0].payload + (merged_payload(rest.take(i - 1)) + rest[i - 1].payload));
        assert(rest[i - 1] == pieces[i]);
    }
}

/// First position whose stored fragment index is not below `index`; the pieces
/// before it all have smaller indices.
fn find_piece_pos(pieces: &Vec<MsgChunk>, index: u16) -> (p: usize)
    ensures
        p <= pieces.len(),
        forall|j: int| 0 <= j < p ==> (#[trigger] pieces@[j])@.index < index,
        p < pieces.len() ==> pieces@[p as int]@.index >= index,
{
    let mut p: usize = 0;
    while p < pieces.len() && pieces[p].1.0 < index
        invariant
            p <= pieces.len(),
            forall|j: int| 0 <= j < p ==> (#[trigger] pieces@[j])@.index < index,
        decreases pieces.len() - p,
    {
        p = p + 1;
    }
    p
}

/// The reassembly buffer of one in-flight message: its id, the declared piece
/// count, the distinct pieces received so far (kept sorted by index), and the
/// byte total of their payloads.
pub struct MsgStage {
    pub this_id: MsgId,
    pub total_pieces: u16,
    pub pieces: Vec<MsgChunk>,
    pub size: usize,
}

impl View for MsgStage {
    type V = StageModel;

    open spec fn view(&self) -> StageModel {
        StageModel {
            id: self.this_id.0,
            total: self.total_pieces,
            pieces: self.pieces@.map_values(|c: MsgChunk| c@),
        }
    }
}

impl MsgStage {
    /// The buffer is well formed and its size field counts its payload bytes.
    pub open spec fn wf(&self) -> bool {
        &&& stage_inv(self@)
        &&& self.size == stage_bytes(self@.pieces)
    }

    /// Start a buffer from the first fragment seen for a message.
    pub fn new(starter: MsgChunk) -> (s: MsgStage)
        ensures
            s.wf(),
            s@ == new_stage(starter@),
            s.size == starter.2@.len(),
    {
        let ghost cm = starter@;
        let id = starter.0;
        let PieceNum(_, out_of) = starter.1;
        let size = starter.2.len();
        let mut pieces: Vec<MsgChunk> = Vec::new();
        pieces.push(starter);
        let s = MsgStage { this_id: id, total_pieces: out_of, pieces, size };
        proof {
            assert(s@.pieces =~= seq![cm]);
            assert(seq![cm].drop_first() =~= Seq::<ChunkModel>::empty());
            assert(stage_bytes(Seq::<ChunkModel>::empty()) == 0);
            assert(stage_bytes(seq![cm]) == cm.payload.len());
        }
        s
    }

    /// Store one fragment. A fragment whose index is already present is
    /// discarded; otherwise it is kept and its payload length, now added to
    /// the buffer's byte total, is returned.
    pub fn add_chunk(&mut self, chunk: MsgChunk) -> (added: usize)
        requires
            old(self).wf(),
            chunk@.id == old(self)@.id,
            stage_bytes(old(self)@.pieces) + chunk.2@.len() <= usize::MAX,
        ensures
            final(self).wf(),
            final(self)@ == stage_added(old(self)@, chunk@),
            final(self).size == old(self).size + added,
            final(self)@.id == old(self)@.id,
            stage_has_index(old(self)@, chunk@.index) ==> added == 0 && *final(self) == *old(self),
            !stage_has_index(old(self)@, chunk@.index) ==> added == chunk.2@.len()
                && final(self)@.pieces.len() == old(self)@.pieces.len() + 1,
    {
        let index = chunk.1.0;
        let ghost cm = chunk@;
        let ghost oldm = self@.pieces;
        let p = find_piece_pos(&self.pieces, index);
        if p < self.pieces.len() && self.pieces[p].1.0 == index {
            proof {
                assert(oldm[p as int].index == index);
                lemma_pieces_insert_dup(oldm, cm);
            }
            0
        } else {
            proof {
                assert forall|j: int| 0 <= j < oldm.len() implies (#[trigger] oldm[j]).index
                    != index by {
                    if j < p {
                    } else if j == p {
                    } else {
                        assert(oldm[p as int].index < oldm[j].index);
                    }
                }
                assert(!stage_has_index(old(self)@, cm.index));
                lemma_pieces_insert_at(oldm, p as int, cm);
                lemma_sorted_insert(oldm, p as int, cm);
                lemma_stage_bytes_insert(oldm, p as int, cm);
            }
            let len = chunk.2.len();
            let ghost pre = self.pieces@;
            self.pieces.insert(p, chunk);
            self.size = self.size + len;
            proof {
                pre.insert_ensures(p as int, chunk);
                assert(self@.pieces =~= oldm.insert(p as int, cm));
            }
            len
        }
    }

    /// True exactly when every declared piece has arrived.
    pub fn is_ready(&self) -> (r: bool)
        ensures
            r == stage_ready(self@),
    {
        self.total_pieces as usize == self.pieces.len()
    }

    /// Reassemble the message: the payloads of the stored pieces, concatenated
    /// in ascending fragment-index order. Meaningful when the buffer is ready;
    /// an early merge returns whatever has arrived so far.
    pub fn merge(self) -> (m: CompleteMessage)
        requires
            self.wf(),
        ensures
            m@.id == self@.id,
            m@.payload == merged_payload(self@.pieces),
    {
        let mut v: Vec<u8> = Vec::new();
        let mut i: usize = 0;
        while i < self.pieces.len()
            invariant
                i <= self.pieces.len(),
                v@ == merged_payload(self@.pieces.take(i as int)),
            decreases self.pieces.len() - i,
        {
            let plen = self.pieces[i].2.len();
            let mut j: usize = 0;
            while j < plen
                invariant
                    i < self.pieces.len(),
                    plen == self@.pieces[i as int].payload.len(),
                    j <= plen,
                    v@ == merged_payload(self@.pieces.take(i as int)) + self@.pieces[
                        i as int
                    ].payload.take(j as int),
                decreases plen - j,
            {
                let b = self.pieces[i].2[j];
                v.push(b);
                proof {
                    assert(self@.pieces[i as int].payload.take(j as int + 1) =~= self@.pieces[
                        i as int
                    ].payload.take(j as int).push(b));
                    assert(v@ =~= merged_payload(self@.pieces.take(i as int)) + self@.pieces[
                        i as int
                    ].payload.take(j as int + 1));
                }
                j = j + 1;
            }
            proof {
                assert(self@.pieces[i as int].payload.take(plen as int) =~= self@.pieces[
                    i as int
                ].payload);
                lemma_merged_take_succ(self@.pieces, i as int);
            }
            i = i + 1;
        }
        proof {
            assert(self@.pieces.take(i as int) =~= self@.pieces);
        }
        CompleteMessage(self.this_id, v)
    }
}

/// Removing one buffer lowers the byte total by exactly that buffer's size.
pub proof fn lemma_queue_bytes_remove(stages: Seq<StageModel>, i: int)
    requires
        0 <= i < stages.len(),
    ensures
        queue_bytes(stages.remove(i)) + stage_size(stages[i]) == queue_bytes(stages),
    decreases stages.len(),
{
    if i == 0 {
        assert(stages.remove(0) =~= stages.drop_first());
    } else {
        let rest = stages.drop_first();
        lemma_queue_bytes_remove(rest, i - 1);
        assert(stages.remove(i)[0] == stages[0]);
        assert(stages.remove(i).drop_first() =~= rest.remove(i - 1));
        assert(rest[i - 1] == stages[i]);
    }
}

/// Inserting one buffer raises the byte total by exactly that buffer's size.
pub proof fn lemma_queue_bytes_insert(stages: Seq<StageModel>, p: int, s: StageModel)
    requires
        0 <= p <= stages.len(),
    ensures
        queue_bytes(stages.insert(p, s)) == queue_bytes(stages) + stage_size(s),
    decreases stages.len(),
{
    if p == 0 {
        assert(stages.insert(0, s)[0] == s);
        assert(stages.insert(0, s).drop_first() =~= stages);
    } else {
        let rest = stages.drop_first();
        lemma_queue_bytes_insert(rest, p - 1, s);
        assert(stages.insert(p, s)[0] == stages[0]);
        assert(stages.insert(p, s).drop_first() =~= rest.insert(p - 1, s));
    }
}

/// Each open buffer's size is part of the queue's byte total.
pub proof fn lemma_queue_bytes_member(stages: Seq<StageModel>, i: int)
    requires
        0 <= i < stages.len(),
    ensures
        stage_size(stages[i]) <= queue_bytes(stages),
{
    lemma_queue_bytes_remove(stages, i);
}

/// Capacity enforcement never lets the byte total grow.
pub proof fn lemma_pruned_bytes_le(stages: Seq<StageModel>, max: nat)
    ensures
        queue_bytes(pruned_stages(stages, max)) <= queue_bytes(stages),
    decreases stages.len(),
{
    if stages.len() == 0 || queue_bytes(stages) <= max {
    } else {
        lemma_pruned_bytes_le(stages.drop_first(), max);
    }
}

/// Capacity enforcement always reaches the bound: what survives fits in it.
pub proof fn lemma_pruned_bytes_bound(stages: Seq<StageModel>, max: nat)
    ensures
        queue_bytes(pruned_stages(stages, max)) <= max,
    decreases stages.len(),
{
    if stages.len() == 0 || queue_bytes(stages) <= max {
    } else {
        lemma_pruned_bytes_bound(stages.drop_first(), max);
    }
}

/// In an id-sorted buffer sequence, a buffer holding the id marks the only
/// position with that id.
pub proof fn lemma_stage_index_unique(stages: Seq<StageModel>, id: u64, p: int)
    requires
        stages_sorted(stages),
        0 <= p < stages.len(),
        stages[p].id == id,
    ensures
        stages_has_id(stages, id),
        stage_index_of(stages, id) == p,
{
    let k = stage_index_of(stages, id);
    if k < p {
        assert(stages[k].id < stages[p].id);
    } else if k > p {
        assert(stages[p].id < stages[k].id);
    }
}

/// The position after all smaller ids is where a fresh id is inserted.
pub proof fn lemma_insert_pos_char(stages: Seq<StageModel>, id: u64, p: int)
    requires
        0 <= p <= stages.len(),
        forall|j: int| 0 <= j < p ==> (#[trigger] stages[j]).id < id,
        p < stages.len() ==> stages[p].id > id,
    ensures
        insert_pos(stages, id) == p,
    decreases stages.len(),
{
    if stages.len() == 0 {
    } else if p == 0 {
    } else {
        lemma_insert_pos_char(stages.drop_first(), id, p - 1);
    }
}

/// The position for a fresh id always falls within the buffer sequence.
pub proof fn lemma_insert_pos_le(stages: Seq<StageModel>, id: u64)
    ensures
        0 <= insert_pos(stages, id) <= stages.len(),
    decreases stages.len(),
{
    if stages.len() == 0 {
    } else if stages[0].id > id {
    } else {
        lemma_insert_pos_le(stages.drop_first(), id);
    }
}

/// Inserting a buffer between its sorted neighbours keeps the buffers sorted.
pub proof fn lemma_stages_sorted_insert(stages: Seq<StageModel>, p: int, s: StageModel)
    requires
        stages_sorted(stages),
        0 <= p <= stages.len(),
        forall|j: int| 0 <= j < p ==> (#[trigger] stages[j]).id < s.id,
        p < stages.len() ==> stages[p].id > s.id,
    ensures
        stages_sorted(stages.insert(p, s)),
{
    stages.insert_ensures(p, s);
    let r = stages.insert(p, s);
    assert forall|i: int, j: int| 0 <= i < j < r.len() implies r[i].id < r[j].id by {
        if i < p {
            assert(r[i] == stages[i]);
        }
        if j < p {
            assert(r[j] == stages[j]);
        }
        if i > p {
            assert(r[i] == stages[i - 1]);
        }
        if j > p {
            assert(r[j] == stages[j - 1]);
        }
    }
}

/// Views of a buffer vector after removing one buffer.
proof fn lemma_stage_views_remove(v: Seq<MsgStage>, i: int)
    requires
        0 <= i < v.len(),
    ensures
        v.remove(i).map_values(|s: MsgStage| s@) == v.map_values(|s: MsgStage| s@).remove(i),
{
    v.remove_ensures(i);
    v.map_values(|s: MsgStage| s@).remove_ensures(i);
    assert(v.remove(i).map_values(|s: MsgStage| s@) =~= v.map_values(
        |s: MsgStage| s@,
    ).remove(i));
}

/// Views of a buffer vector after inserting one buffer.
proof fn lemma_stage_views_insert(v: Seq<MsgStage>, p: int, s: MsgStage)
    requires
        0 <= p <= v.len(),
    ensures
        v.insert(p, s).map_values(|s: MsgStage| s@) == v.map_values(|s: MsgStage| s@).insert(
            p,
            s@,
        ),
{
    v.insert_ensures(p, s);
    v.map_values(|s: MsgStage| s@).insert_ensures(p, s@);
    assert(v.insert(p, s).map_values(|s: MsgStage| s@) =~= v.map_values(|s: MsgStage| s@).insert(
        p,
        s@,
    ));
}

/// What survives a publication is a suffix of the id-sorted buffers: the
/// dropped ones are exactly the oldest, and everything kept is newer than the
/// published id.
pub proof fn lemma_publish_char(stages: Seq<StageModel>, x: u64)
    requires
        stages_sorted(stages),
    ensures
        ({
            let r = stages_after_publish(stages, x);
            let k = stages.len() - r.len();
            &&& r.len() <= stages.len()
            &&& r == stages.skip(k)
            &&& forall|j: int| 0 <= j < k ==> (#[trigger] stages[j]).id <= x
            &&& forall|i: int| 0 <= i < r.len() ==> (#[trigger] r[i]).id > x
        }),
    decreases stages.len(),
{
    let r = stages_after_publish(stages, x);
    if stages.len() == 0 {
        assert(r =~= stages.skip(0));
    } else if stages[0].id <= x {
        let rest = stages.drop_first();
        assert(stages_sorted(rest)) by {
            assert forall|i: int, j: int| 0 <= i < j < rest.len() implies rest[i].id
                < rest[j].id by {
                assert(rest[i] == stages[i + 1]);
                assert(rest[j] == stages[j + 1]);
            }
        }
        lemma_publish_char(rest, x);
        let k = stages.len() - r.len();
        assert(rest.skip(k - 1) =~= stages.skip(k));
        assert forall|j: int| 0 <= j < k implies (#[trigger] stages[j]).id <= x by {
            if j > 0 {
                assert(rest[j - 1].id <= x);
                assert(rest[j - 1] == stages[j]);
            }
        }
    } else {
        assert(r =~= stages.skip(0));
    }
}

/// What survives capacity enforcement is a suffix of the id-sorted buffers:
/// eviction removes the oldest ids first.
pub proof fn lemma_pruned_suffix(stages: Seq<StageModel>, max: nat)
    ensures
        pruned_stages(stages, max).len() <= stages.len(),
        pruned_stages(stages, max) == stages.skip(
            stages.len() - pruned_stages(stages, max).len(),
        ),
    decreases stages.len(),
{
    let r = pruned_stages(stages, max);
    if stages.len() == 0 || queue_bytes(stages) <= max {
        assert(r =~= stages.skip(0));
    } else {
        let rest = stages.drop_first();
        lemma_pruned_suffix(rest, max);
        let k = stages.len() - r.len();
        assert(rest.skip(k - 1) =~= stages.skip(k));
    }
}

/// Publication never lets the byte total grow.
pub proof fn lemma_publish_bytes_le(stages: Seq<StageModel>, x: u64)
    ensures
        queue_bytes(stages_after_publish(stages, x)) <= queue_bytes(stages),
    decreases stages.len(),
{
    if stages.len() == 0 {
    } else if stages[0].id <= x {
        lemma_publish_bytes_le(stages.drop_first(), x);
    } else {
    }
}

/// Replacing one buffer changes the byte total by the difference in buffer
/// sizes.
pub proof fn lemma_queue_bytes_update(stages: Seq<StageModel>, i: int, s: StageModel)
    requires
        0 <= i < stages.len(),
    ensures
        queue_bytes(stages.update(i, s)) + stage_size(stages[i]) == queue_bytes(stages)
            + stage_size(s),
{
    lemma_queue_bytes_remove(stages, i);
    lemma_queue_bytes_insert(stages.remove(i), i, s);
    assert(stages.update(i, s) =~= stages.remove(i).insert(i, s));
}

/// Absorbing a fragment grows a buffer by at most that fragment's payload.
pub proof fn lemma_pieces_insert_bytes(pieces: Seq<ChunkModel>, c: ChunkModel)
    ensures
        stage_bytes(pieces_insert(pieces, c)) <= stage_bytes(pieces) + c.payload.len(),
    decreases pieces.len(),
{
    if pieces.len() == 0 {
        assert(seq![c].drop_first() =~= Seq::<ChunkModel>::empty());
        assert(stage_bytes(Seq::<ChunkModel>::empty()) == 0);
        assert(stage_bytes(seq![c]) == c.payload.len());
    } else if c.index < pieces[0].index {
        let r = seq![c] + pieces;
        assert(r[0] == c);
        assert(r.drop_first() =~= pieces);
        assert(stage_bytes(r) == c.payload.len() + stage_bytes(pieces));
    } else if c.index == pieces[0].index {
    } else {
        lemma_pieces_insert_bytes(pieces.drop_first(), c);
        let r = seq![pieces[0]] + pieces_insert(pieces.drop_first(), c);
        assert(r[0] == pieces[0]);
        assert(r.drop_first() =~= pieces_insert(pieces.drop_first(), c));
        assert(stage_bytes(r) == pieces[0].payload.len() + stage_bytes(
            pieces_insert(pieces.drop_first(), c),
        ));
        assert(stage_bytes(pieces) == pieces[0].payload.len() + stage_bytes(
            pieces.drop_first(),
        ));
    }
}

/// First position whose buffered message id is not below `id`; the buffers
/// before it all have smaller ids.
fn find_stage_pos(stages: &Vec<MsgStage>, id: u64) -> (p: usize)
    ensures
        p <= stages.len(),
        forall|j: int| 0 <= j < p ==> (#[trigger] stages@[j])@.id < id,
        p < stages.len() ==> stages@[p as int]@.id >= id,
{
    let mut p: usize = 0;
    while p < stages.len() && stages[p].this_id.0 < id
        invariant
            p <= stages.len(),
            forall|j: int| 0 <= j < p ==> (#[trigger] stages@[j])@.id < id,
        decreases stages.len() - p,
    {
        p = p + 1;
    }
    p
}

/// The per-peer reassembly queue: the high-water mark of published message
/// ids, the open buffers (kept sorted by id), an optional byte bound, and the
/// byte total across all open buffers.
pub struct MsgQueue {
    pub last_released: Option<MsgId>,
    pub stages: Vec<MsgStage>,
    pub max_size: Option<usize>,
    pub cur_size: usize,
}

impl View for MsgQueue {
    type V = QueueModel;

    open spec fn view(&self) -> QueueModel {
        QueueModel {
            last_released: match self.last_released {
                Some(id) => Some(id.0),
                None => None,
            },
            stages: self.stages@.map_values(|s: MsgStage| s@),
            max_size: self.max_size,
        }
    }
}

impl MsgQueue {
    /// The queue is well formed, every open buffer is well formed, and the
    /// size field counts the bytes across all open buffers.
    pub open spec fn wf(&self) -> bool {
        &&& queue_inv(self@)
        &&& self.cur_size == queue_bytes(self@.stages)
        &&& forall|i: int| 0 <= i < self.stages@.len() ==> (#[trigger] self.stages@[i]).wf()
    }

    /// An empty queue with an optional byte bound (`None` means unbounded).
    pub fn new(max_size: Option<usize>) -> (q: MsgQueue)
        ensures
            q.wf(),
            q@ == (QueueModel { last_released: None, stages: Seq::empty(), max_size }),
    {
        let q = MsgQueue { last_released: None, stages: Vec::new(), max_size, cur_size: 0 };
        proof {
            assert(q@.stages =~= Seq::<StageModel>::empty());
        }
        q
    }

    /// Record a message id as published: every open buffer at or below that id
    /// is abandoned, and the id becomes the staleness high-water mark.
    fn mark_published(&mut self, just_published: MsgId)
        requires
            old(self).wf(),
        ensures
            final(self).wf(),
            final(self)@ == published(old(self)@, just_published.0),
    {
        let x = just_published.0;
        self.last_released = Some(just_published);
        while self.stages.len() > 0 && self.stages[0].this_id.0 <= x
            invariant
                self.max_size == old(self).max_size,
                self.last_released == Some(just_published),
                forall|i: int|
                    0 <= i < self.stages@.len() ==> (#[trigger] self.stages@[i]).wf(),
                forall|i: int| 0 <= i < self@.stages.len() ==> stage_inv(#[trigger] self@.stages[i]),
                stages_sorted(self@.stages),
                self.cur_size == queue_bytes(self@.stages),
                stages_after_publish(self@.stages, x) == stages_after_publish(
                    old(self)@.stages,
                    x,
                ),
                match old(self)@.last_released {
                    Some(l) => forall|i: int|
                        0 <= i < self@.stages.len() ==> (#[trigger] self@.stages[i]).id > l,
                    None => true,
                },
            decreases self.stages.len(),
        {
            let ghost pre = self.stages@;
            let ghost prem = self@.stages;
            let st = self.stages.remove(0);
            self.cur_size = self.cur_size - st.size;
            proof {
                lemma_stage_views_remove(pre, 0);
                assert(prem.remove(0) =~= prem.drop_first());
                assert(stages_after_publish(prem, x) == stages_after_publish(
                    prem.drop_first(),
                    x,
                ));
            }
        }
        proof {
            assert(stages_after_publish(self@.stages, x) == self@.stages);
        }
    }

    /// Enforce the byte bound: evict the open buffer with the smallest id
    /// until the total fits the bound or nothing is left. A queue without a
    /// bound is untouched.
    fn prune(&mut self)
        requires
            old(self).wf(),
        ensures
            final(self).wf(),
            final(self)@ == pruned(old(self)@),
    {
        let m = match self.max_size {
            None => {
                return ;
            },
            Some(m) => m,
        };
        while self.cur_size > m && self.stages.len() > 0
            invariant
                self.max_size == old(self).max_size,
                self.max_size == Some(m),
                self.last_released == old(self).last_released,
                forall|i: int|
                    0 <= i < self.stages@.len() ==> (#[trigger] self.stages@[i]).wf(),
                forall|i: int| 0 <= i < self@.stages.len() ==> stage_inv(#[trigger] self@.stages[i]),
                stages_sorted(self@.stages),
                self.cur_size == queue_bytes(self@.stages),
                pruned_stages(self@.stages, m as nat) == pruned_stages(
                    old(self)@.stages,
                    m as nat,
                ),
                match old(self)@.last_released {
                    Some(l) => forall|i: int|
                        0 <= i < self@.stages.len() ==> (#[trigger] self@.stages[i]).id > l,
                    None => true,
                },
            decreases self.stages.len(),
        {
            let ghost pre = self.stages@;
            let ghost prem = self@.stages;
            let st = self.stages.remove(0);
            self.cur_size = self.cur_size - st.size;
            proof {
                lemma_stage_views_remove(pre, 0);
                assert(prem.remove(0) =~= prem.drop_first());
                assert(queue_bytes(prem) > m);
                assert(pruned_stages(prem, m as nat) == pruned_stages(prem.drop_first(), m as nat));
            }
        }
        proof {
            assert(pruned_stages(self@.stages, m as nat) == self@.stages);
        }
    }

    /// Feed one fragment to the queue. In order: enforce the byte bound,
    /// discard the fragment if a message with the same or a newer id was
    /// already published, publish a declared-single fragment immediately,
    /// otherwise accumulate it into its message's buffer (creating the buffer
    /// on first sight) and publish the message once every piece has arrived.
    /// Publication abandons every open buffer with an older id: a completed
    /// message is never older than one already handed out.
    pub fn insert_chunk(&mut self, chunk: MsgChunk) -> (result: Option<CompleteMessage>)
        requires
            old(self).wf(),
            queue_bytes(old(self)@.stages) + chunk.2@.len() <= usize::MAX,
        ensures
            final(self).wf(),
            final(self)@ == queue_insert(old(self)@, chunk@).0,
            match (result, queue_insert(old(self)@, chunk@).1) {
                (Some(m), Some(mm)) => m@ == mm,
                (None, None) => true,
                _ => false,
            },
    {
        let ghost cm = chunk@;
        let id = chunk.0.0;
        self.prune();
        let ghost q1 = self@;
        proof {
            match old(self)@.max_size {
                None => {},
                Some(m) => {
                    lemma_pruned_bytes_le(old(self)@.stages, m as nat);
                },
            }
        }
        if let Some(last) = self.last_released {
            if last.0 >= id {
                return None;
            }
        }
        if chunk.1.1 == 1 {
            self.mark_published(MsgId(id));
            return Some(CompleteMessage(MsgId(id), chunk.2));
        }
        let p = find_stage_pos(&self.stages, id);
        if p < self.stages.len() && self.stages[p].this_id.0 == id {
            proof {
                lemma_stage_index_unique(q1.stages, id, p as int);
            }
            let ghost pre = self.stages@;
            let mut st = self.stages.remove(p);
            proof {
                lemma_stage_views_remove(pre, p as int);
                lemma_queue_bytes_member(q1.stages, p as int);
                lemma_queue_bytes_remove(q1.stages, p as int);
            }
            let added = st.add_chunk(chunk);
            self.cur_size = self.cur_size + added;
            let ghost stm = st@;
            if st.is_ready() {
                proof {
                    assert(st.size <= self.cur_size);
                }
                self.cur_size = self.cur_size - st.size;
                proof {
                    let mid = self@;
                    assert(mid.stages == q1.stages.remove(p as int));
                    assert(self.cur_size == queue_bytes(mid.stages));
                    pre.remove_ensures(p as int);
                    assert forall|i: int| 0 <= i < self.stages@.len() implies (
                    #[trigger] self.stages@[i]).wf() by {}
                    assert forall|i: int| 0 <= i < mid.stages.len() implies stage_inv(
                        #[trigger] mid.stages[i],
                    ) by {
                        q1.stages.remove_ensures(p as int);
                    }
                    assert forall|i: int, j: int|
                        0 <= i < j < mid.stages.len() implies mid.stages[i].id
                        < mid.stages[j].id by {
                        q1.stages.remove_ensures(p as int);
                    }
                    match q1.last_released {
                        Some(l) => {
                            assert forall|i: int| 0 <= i < mid.stages.len() implies (
                            #[trigger] mid.stages[i]).id > l by {
                                q1.stages.remove_ensures(p as int);
                            }
                        },
                        None => {},
                    }
                }
                self.mark_published(MsgId(id));
                return Some(st.merge());
            } else {
                let ghost pre2 = self.stages@;
                self.stages.insert(p, st);
                proof {
                    lemma_stage_views_insert(pre2, p as int, st);
                    assert(self@.stages =~= q1.stages.update(p as int, stm));
                    lemma_queue_bytes_insert(q1.stages.remove(p as int), p as int, stm);
                    assert(queue_bytes(self@.stages) == queue_bytes(q1.stages.remove(p as int))
                        + stage_size(stm));
                    let upd = q1.stages.update(p as int, stm);
                    assert forall|i: int| 0 <= i < upd.len() implies stage_inv(
                        #[trigger] upd[i],
                    ) by {}
                    assert(stages_sorted(upd));
                    match q1.last_released {
                        Some(l) => {
                            assert forall|i: int| 0 <= i < upd.len() implies (
                            #[trigger] upd[i]).id > l by {}
                        },
                        None => {},
                    }
                }
                return None;
            }
        } else {
            proof {
                assert forall|j: int| 0 <= j < q1.stages.len() implies (
                #[trigger] q1.stages[j]).id != id by {
                    if j < p {
                    } else if j == p {
                    } else {
                        assert(q1.stages[p as int].id < q1.stages[j].id);
                    }
                }
                assert(!stages_has_id(q1.stages, id));
                lemma_insert_pos_char(q1.stages, id, p as int);
            }
            let len = chunk.2.len();
            self.cur_size = self.cur_size + len;
            let st = MsgStage::new(chunk);
            let ghost pre = self.stages@;
            self.stages.insert(p, st);
            proof {
                lemma_stage_views_insert(pre, p as int, st);
                lemma_queue_bytes_insert(q1.stages, p as int, st@);
                lemma_stages_sorted_insert(q1.stages, p as int, st@);
                let ins = q1.stages.insert(p as int, st@);
                q1.stages.insert_ensures(p as int, st@);
                assert forall|i: int| 0 <= i < ins.len() implies stage_inv(
                    #[trigger] ins[i],
                ) by {}
                match q1.last_released {
                    Some(l) => {
                        assert forall|i: int| 0 <= i < ins.len() implies (#[trigger] ins[i]).id
                            > l by {}
                    },
                    None => {},
                }
            }
            return None;
        }
    }
}

} // verus!
