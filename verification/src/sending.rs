//! The outbound side of the protocol: numbering messages and splitting a
//! payload into wire fragments.
//!
//! A [`Fragmenter`] owns the strictly increasing message counter of one
//! sender. Splitting a payload yields consecutive slices of at most the
//! configured piece length, each wrapped in a [`MsgChunk`] carrying its
//! 1-based position and the total slice count; the whole slice set is
//! repeated once per configured replica to raise delivery odds over a lossy
//! transport (the receiving queue absorbs the duplicates).

use vstd::arithmetic::div_mod::lemma_fundamental_div_mod;
use vstd::prelude::*;

use crate::msgqueue::ChunkModel;
use crate::msgqueue::MsgChunk;
use crate::msgqueue::MsgId;
use crate::msgqueue::PieceNum;

verus! {

/// How many slices a payload of `len` bytes yields at `piece` bytes per
/// slice: the rounded-up quotient, and none at all for an empty payload.
pub open spec fn chunk_count(len: nat, piece: nat) -> nat
    recommends
        piece >= 1,
{
    if len == 0 {
        0
    } else {
        (len - 1) as nat / piece + 1
    }
}

/// Slice `j` (0-based) of the payload: the bytes from `j * piece` up to the
/// next slice boundary or the end of the payload.
pub open spec fn slice_model(msg: Seq<u8>, piece: nat, j: int) -> Seq<u8> {
    msg.subrange(
        j * piece,
        if (j + 1) * piece <= msg.len() as int {
            (j + 1) * piece
        } else {
            msg.len() as int
        },
    )
}

/// Fragment `j` (0-based) of a message with the given id, split into `n`
/// slices of at most `piece` bytes.
pub open spec fn fragment_model(msg: Seq<u8>, piece: nat, id: u64, n: int, j: int) -> ChunkModel {
    ChunkModel {
        id,
        index: (j + 1) as u16,
        total: n as u16,
        payload: slice_model(msg, piece, j),
    }
}

/// The first `j` fragments of one replica, in slice order.
pub open spec fn replica_prefix(msg: Seq<u8>, piece: nat, id: u64, n: int, j: int) -> Seq<
    ChunkModel,
>
    decreases j,
{
    if j <= 0 {
        Seq::empty()
    } else {
        replica_prefix(msg, piece, id, n, j - 1).push(fragment_model(msg, piece, id, n, j - 1))
    }
}

/// `r` full replicas of the fragment list, one after the other.
pub open spec fn replicas(msg: Seq<u8>, piece: nat, id: u64, n: int, r: int) -> Seq<ChunkModel>
    decreases r,
{
    if r <= 0 {
        Seq::empty()
    } else {
        replicas(msg, piece, id, n, r - 1) + replica_prefix(msg, piece, id, n, n)
    }
}

/// A replica prefix holds one fragment per slice counted.
pub proof fn lemma_replica_prefix_len(msg: Seq<u8>, piece: nat, id: u64, n: int, j: int)
    requires
        j >= 0,
    ensures
        replica_prefix(msg, piece, id, n, j).len() == j,
    decreases j,
{
    if j > 0 {
        lemma_replica_prefix_len(msg, piece, id, n, j - 1);
    }
}

/// Replication multiplies the fragment count and nothing else.
pub proof fn lemma_replicas_len(msg: Seq<u8>, piece: nat, id: u64, n: int, r: int)
    requires
        n >= 0,
        r >= 0,
    ensures
        replicas(msg, piece, id, n, r).len() == r * n,
    decreases r,
{
    if r > 0 {
        lemma_replicas_len(msg, piece, id, n, r - 1);
        lemma_replica_prefix_len(msg, piece, id, n, n);
        assert(r * n == (r - 1) * n + n) by (nonlinear_arith);
    } else {
        assert(r * n == 0) by (nonlinear_arith)
            requires
                r == 0,
        ;
    }
}

/// The outbound fragmenting state of one sender: its monotonic message
/// counter, the byte cap of one fragment payload, and how many times each
/// fragment is repeated.
pub struct Fragmenter {
    pub last_id: u64,
    pub max_piece_len: u16,
    pub replication: u8,
}

impl Fragmenter {
    /// A fragment carries at least one byte and every fragment is sent at
    /// least once.
    pub open spec fn wf(&self) -> bool {
        &&& self.max_piece_len >= 1
        &&& self.replication >= 1
    }

    /// A fresh fragmenter; message ids start at 1.
    pub fn new(max_piece_len: u16, replication: u8) -> (f: Fragmenter)
        requires
            max_piece_len >= 1,
            replication >= 1,
        ensures
            f.wf(),
            f.last_id == 0,
            f.max_piece_len == max_piece_len,
            f.replication == replication,
    {
        Fragmenter { last_id: 0, max_piece_len, replication }
    }

    /// Allocate the next message id and split the payload into its wire
    /// fragments, replica by replica, each replica in slice order. An empty
    /// payload yields no fragments.
    pub fn split(&mut self, message: &Vec<u8>) -> (frags: Vec<MsgChunk>)
        requires
            old(self).wf(),
            old(self).last_id < u64::MAX,
            chunk_count(message@.len(), old(self).max_piece_len as nat) <= u16::MAX,
            message@.len() + old(self).max_piece_len <= usize::MAX,
        ensures
            final(self).wf(),
            final(self).last_id == old(self).last_id + 1,
            final(self).max_piece_len == old(self).max_piece_len,
            final(self).replication == old(self).replication,
            frags@.map_values(|c: MsgChunk| c@) == replicas(
                message@,
                old(self).max_piece_len as nat,
                (old(self).last_id + 1) as u64,
                chunk_count(message@.len(), old(self).max_piece_len as nat) as int,
                old(self).replication as int,
            ),
            frags@.len() == old(self).replication * chunk_count(
                message@.len(),
                old(self).max_piece_len as nat,
            ),
    {
        self.last_id = self.last_id + 1;
        let id = self.last_id;
        let piece = self.max_piece_len as usize;
        let len = message.len();
        let n: usize = if len == 0 {
            0
        } else {
            (len - 1) / piece + 1
        };
        let ghost pn = piece as nat;
        let ghost ni = n as int;
        proof {
            if len > 0 {
                lemma_fundamental_div_mod((len - 1) as int, piece as int);
                assert((ni - 1) * (piece as int) <= len - 1) by (nonlinear_arith)
                    requires
                        ni - 1 == (len - 1) as int / (piece as int),
                        piece >= 1,
                        len >= 1,
                        (len - 1) as int == (piece as int) * ((len - 1) as int / (piece as int)) + (
                        len - 1) as int % (piece as int),
                        (len - 1) as int % (piece as int) >= 0,
                ;
            }
        }
        let mut frags: Vec<MsgChunk> = Vec::new();
        let mut r: usize = 0;
        let reps = self.replication as usize;
        while r < reps
            invariant
                r <= reps,
                piece >= 1,
                ni == n as int,
                pn == piece as nat,
                len == message@.len(),
                len > 0 ==> (ni - 1) * (piece as int) <= len - 1,
                len == 0 ==> n == 0,
                n == chunk_count(len as nat, pn),
                n <= u16::MAX,
                len + piece <= usize::MAX,
                frags@.map_values(|c: MsgChunk| c@) == replicas(message@, pn, id, ni, r as int),
            decreases reps - r,
        {
            let mut j: usize = 0;
            let mut off: usize = 0;
            proof {
                assert(replica_prefix(message@, pn, id, ni, 0) == Seq::<ChunkModel>::empty());
                assert(frags@.map_values(|c: MsgChunk| c@) + Seq::<ChunkModel>::empty()
                    =~= frags@.map_values(|c: MsgChunk| c@));
            }
            while j < n
                invariant
                    j <= n,
                    off == j * piece,
                    piece >= 1,
                    ni == n as int,
                    pn == piece as nat,
                    len == message@.len(),
                    len > 0 ==> (ni - 1) * (piece as int) <= len - 1,
                    n == chunk_count(len as nat, pn),
                    n <= u16::MAX,
                    len + piece <= usize::MAX,
                    frags@.map_values(|c: MsgChunk| c@) == replicas(message@, pn, id, ni, r as int)
                        + replica_prefix(message@, pn, id, ni, j as int),
                decreases n - j,
            {
                proof {
                    assert((j as int) * (piece as int) <= (ni - 1) * (piece as int))
                        by (nonlinear_arith)
                        requires
                            0 <= j as int <= ni - 1,
                            piece >= 1,
                    ;
                    assert((j as int + 1) * (piece as int) == (j as int) * (piece as int) + (
                    piece as int)) by (nonlinear_arith);
                }
                let end = if off + piece <= len {
                    off + piece
                } else {
                    len
                };
                let mut payload: Vec<u8> = Vec::new();
                let mut t: usize = off;
                while t < end
                    invariant
                        off <= t <= end <= len,
                        len == message@.len(),
                        payload@ == message@.subrange(off as int, t as int),
                    decreases end - t,
                {
                    let b = message[t];
                    payload.push(b);
                    proof {
                        assert(message@.subrange(off as int, t as int + 1) =~= message@.subrange(
                            off as int,
                            t as int,
                        ).push(b));
                    }
                    t = t + 1;
                }
                proof {
                    assert(payload@ == slice_model(message@, pn, j as int));
                }
                let ghost pre = frags@;
                let chunk = MsgChunk(MsgId(id), PieceNum((j + 1) as u16, n as u16), payload);
                proof {
                    assert(chunk@ == fragment_model(message@, pn, id, ni, j as int));
                }
                frags.push(chunk);
                proof {
                    assert(frags@.map_values(|c: MsgChunk| c@) =~= pre.map_values(
                        |c: MsgChunk| c@,
                    ).push(chunk@));
                }
                j = j + 1;
                off = off + piece;
            }
            proof {
                assert(replicas(message@, pn, id, ni, r as int + 1) == replicas(
                    message@,
                    pn,
                    id,
                    ni,
                    r as int,
                ) + replica_prefix(message@, pn, id, ni, ni));
            }
            r = r + 1;
        }
        proof {
            lemma_replicas_len(message@, pn, id, ni, reps as int);
        }
        frags
    }
}

} // verus!
