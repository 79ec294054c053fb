//! The queue of pieces that download workers take their work from.

use vstd::prelude::*;

verus! {

/// The pieces still to download; the next one handed out is the last one
/// in the sequence.
#[derive(Debug)]
pub struct WorkQueue {
    pieces: Vec<usize>,
}

/// The pieces `0..piece_count` laid out so that they come out in ascending order.
pub open spec fn initial_pieces(piece_count: nat) -> Seq<usize> {
    Seq::new(piece_count, |i: int| (piece_count - 1 - i) as usize)
}

impl View for WorkQueue {
    type V = Seq<usize>;

    closed spec fn view(&self) -> Seq<usize> {
        self.pieces@
    }
}

impl WorkQueue {
    /// A queue holding every piece of a torrent with `piece_count` pieces,
    /// handing them out from piece 0 upwards.
    pub fn new(piece_count: usize) -> (r: WorkQueue)
        ensures
            r@ == initial_pieces(piece_count as nat),
    {
        let mut pieces: Vec<usize> = Vec::new();
        let mut i: usize = piece_count;
        while i > 0
            invariant
                i <= piece_count,
                pieces@ == initial_pieces(piece_count as nat).take(piece_count - i),
            decreases i,
        {
            i = i - 1;
            pieces.push(i);
            assert(pieces@ =~= initial_pieces(piece_count as nat).take(piece_count - i));
        }
        assert(initial_pieces(piece_count as nat).take(piece_count as int) =~= initial_pieces(
            piece_count as nat,
        ));
        WorkQueue { pieces }
    }

    /// Takes the next piece, or `None` when no piece is left.
    pub fn pop(&mut self) -> (r: Option<usize>)
        ensures
            old(self)@.len() == 0 ==> r is None && final(self)@ == old(self)@,
            old(self)@.len() > 0 ==> r == Some(old(self)@.last()) && final(self)@
                == old(self)@.drop_last(),
    {
        self.pieces.pop()
    }

    /// Puts a piece back; it is the next one handed out.
    pub fn push(&mut self, piece: usize)
        ensures
            final(self)@ == old(self)@.push(piece),
    {
        self.pieces.push(piece);
    }
}

/// A piece put back is the next one taken, and taking it leaves the queue
/// as it was before.
pub proof fn lemma_push_then_pop(q: Seq<usize>, piece: usize)
    ensures
        q.push(piece).len() > 0,
        q.push(piece).last() == piece,
        q.push(piece).drop_last() == q,
{
    assert(q.push(piece).drop_last() =~= q);
}

/// A fresh queue hands out piece `k` as its `k`-th piece: after `k` pieces
/// have been taken, the next one is `k`.
pub proof fn lemma_initial_order(piece_count: nat, k: nat)
    requires
        k < piece_count <= usize::MAX,
    ensures
        ({
            let rest = initial_pieces(piece_count).take(piece_count - k);
            &&& rest.len() > 0
            &&& rest.last() == k
        }),
{
    let rest = initial_pieces(piece_count).take(piece_count - k);
    assert(rest.last() == initial_pieces(piece_count)[piece_count - k - 1]);
}

} // verus!
