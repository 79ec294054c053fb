//! The decisions of a download worker: how it reacts to a peer's messages,
//! which piece it takes next, and how it requests and assembles the blocks
//! of a piece. The worker's I/O (the connection, the file) is done by the
//! caller, who performs each returned action and feeds back what arrives.

use crate::message::{bit_set, Bitfield, Message, MessageView};
use crate::queue::WorkQueue;
use vstd::prelude::*;

verus! {

/// The largest block requested at once: 16 KiB.
pub const BLOCK_MAX: u32 = 16384;

/// The most requests a worker keeps outstanding.
pub const MAX_BACKLOG: i32 = 5;

/// What a worker knows about its peer and the torrent.
pub struct DownloadWorker {
    am_interested: bool,
    peer_choking: bool,
    bitfield: Option<Bitfield>,
    piece_length: u32,
    file_length: u64,
}

/// What a [`DownloadWorker`] holds.
pub struct WorkerView {
    pub am_interested: bool,
    pub peer_choking: bool,
    pub bitfield: Option<Seq<u8>>,
    pub piece_length: u32,
    pub file_length: u64,
}

impl View for DownloadWorker {
    type V = WorkerView;

    closed spec fn view(&self) -> WorkerView {
        WorkerView {
            am_interested: self.am_interested,
            peer_choking: self.peer_choking,
            bitfield: match self.bitfield {
                Some(b) => Some(b@),
                None => None,
            },
            piece_length: self.piece_length,
            file_length: self.file_length,
        }
    }
}

/// What the worker asks its caller to do after a message from the peer.
#[derive(Debug)]
pub enum WorkerAction {
    /// Wait for the next message.
    Continue,
    /// Send this message to the peer, then wait for the next one.
    Send(Message),
    /// The peer unchoked us: download pieces from the queue until it is
    /// empty or a piece fails, then stop.
    RequestPieces,
    /// Stop working with this peer.
    Finish,
}

/// The worker's next move in its request loop.
#[derive(Debug, Clone, Copy, PartialEq, Eq, Structural)]
pub enum RequestStep {
    /// Nothing more to request: the peer chokes us or the queue is empty.
    Stop,
    /// The peer lacks this piece; it went back on the queue.
    Requeued(usize),
    /// Download this piece, taken off the queue.
    Download(usize),
}

/// Why a piece download failed.
#[derive(Debug, Clone, Copy, PartialEq, Eq, Structural)]
pub enum DownloadError {
    /// The peer choked us during the download.
    Choked,
}

/// Byte offset of piece `index` in the file.
pub open spec fn piece_offset(w: WorkerView, index: int) -> int {
    index * w.piece_length
}

/// Size of piece `index`: the piece length, cut short at the end of the file.
pub open spec fn piece_size(w: WorkerView, index: int) -> int {
    if piece_offset(w, index) + w.piece_length > w.file_length {
        w.file_length - piece_offset(w, index)
    } else {
        w.piece_length as int
    }
}

/// The pieces whose bounds can be computed without overflow, and which do
/// not start past the end of the file when they reach beyond it.
pub open spec fn piece_in_file(w: WorkerView, index: int) -> bool {
    &&& piece_offset(w, index) + w.piece_length <= u64::MAX
    &&& piece_offset(w, index) + w.piece_length > w.file_length ==> piece_offset(w, index)
        <= w.file_length
}

/// The worker after a message of the peer: a bitfield is kept and makes the
/// worker interested, an unchoke or a choke sets whether the peer chokes it,
/// anything else changes nothing.
pub open spec fn worker_after(w: WorkerView, m: MessageView) -> WorkerView {
    match m {
        MessageView::Bitfield(bits) => WorkerView { bitfield: Some(bits), am_interested: true, ..w },
        MessageView::Unchoke => WorkerView { peer_choking: false, ..w },
        MessageView::Choke => WorkerView { peer_choking: true, ..w },
        _ => w,
    }
}

/// Whether the worker tells the peer it is interested on this message: on
/// a bitfield, if it has not done so before.
pub open spec fn declares_interest(w: WorkerView, m: MessageView) -> bool {
    m is Bitfield && !w.am_interested
}

/// Interest is declared at most once: once declared, the worker stays
/// interested and never declares it again, whatever the peer sends.
pub proof fn lemma_interest_declared_once(w: WorkerView, m: MessageView)
    ensures
        declares_interest(w, m) ==> worker_after(w, m).am_interested,
        w.am_interested ==> worker_after(w, m).am_interested && !declares_interest(w, m),
{
}

/// A message other than a choke or an unchoke leaves the peer's choking
/// state as it was; only a bitfield changes which pieces the worker knows of.
pub proof fn lemma_choking_follows_choke_messages(w: WorkerView, m: MessageView)
    ensures
        !(m is Choke) && !(m is Unchoke) ==> worker_after(w, m).peer_choking == w.peer_choking,
        !(m is Bitfield) ==> worker_after(w, m).bitfield == w.bitfield,
{
}

/// The worker after each message of `msgs` in turn.
pub open spec fn worker_after_all(w: WorkerView, msgs: Seq<MessageView>) -> WorkerView
    decreases msgs.len(),
{
    if msgs.len() == 0 {
        w
    } else {
        worker_after(worker_after_all(w, msgs.drop_last()), msgs.last())
    }
}

/// Whether `msgs` holds an unchoke with no choke after it.
pub open spec fn unchoked_since(msgs: Seq<MessageView>) -> bool {
    exists|i: int|
        0 <= i < msgs.len() && #[trigger] msgs[i] is Unchoke && forall|j: int|
            i < j < msgs.len() ==> !(#[trigger] msgs[j] is Choke)
}

/// How often the worker declares interest while taking in `msgs`.
pub open spec fn interest_declarations(w: WorkerView, msgs: Seq<MessageView>) -> nat
    decreases msgs.len(),
{
    if msgs.len() == 0 {
        0
    } else {
        interest_declarations(w, msgs.drop_last()) + if declares_interest(
            worker_after_all(w, msgs.drop_last()),
            msgs.last(),
        ) {
            1nat
        } else {
            0nat
        }
    }
}

/// Whether `msgs` holds a bitfield.
pub open spec fn has_bitfield(msgs: Seq<MessageView>) -> bool {
    exists|i: int| 0 <= i < msgs.len() && #[trigger] msgs[i] is Bitfield
}

/// Over any run of messages, a worker that starts choked is unchoked
/// exactly when an unchoke arrived with no choke after it. Since
/// `next_piece` stops and `request_piece` requests nothing while the peer
/// chokes, no piece is taken and no block requested unless an unchoke came
/// and no choke followed it; a choke that arrives during a piece download
/// ends it (`PieceDownload::handle_message`).
pub proof fn lemma_requests_need_unchoke(w: WorkerView, msgs: Seq<MessageView>)
    requires
        w.peer_choking,
    ensures
        !worker_after_all(w, msgs).peer_choking <==> unchoked_since(msgs),
    decreases msgs.len(),
{
    if msgs.len() > 0 {
        let init = msgs.drop_last();
        let last = msgs.last();
        lemma_requests_need_unchoke(w, init);
        let n = msgs.len() - 1;
        assert(msgs[n] == last);
        if last is Unchoke {
            assert(unchoked_since(msgs)) by {
                assert(msgs[n] is Unchoke);
            }
        } else if last is Choke {
            if unchoked_since(msgs) {
                let i = choose|i: int|
                    0 <= i < msgs.len() && #[trigger] msgs[i] is Unchoke && forall|j: int|
                        i < j < msgs.len() ==> !(#[trigger] msgs[j] is Choke);
                assert(i != n);
                assert(!(msgs[n] is Choke));
            }
        } else {
            if unchoked_since(init) {
                let i = choose|i: int|
                    0 <= i < init.len() && #[trigger] init[i] is Unchoke && forall|j: int|
                        i < j < init.len() ==> !(#[trigger] init[j] is Choke);
                assert(msgs[i] == init[i]);
                assert forall|j: int| i < j < msgs.len() implies !(#[trigger] msgs[j] is Choke) by {
                    if j < n {
                        assert(msgs[j] == init[j]);
                    }
                }
            }
            if unchoked_since(msgs) {
                let i = choose|i: int|
                    0 <= i < msgs.len() && #[trigger] msgs[i] is Unchoke && forall|j: int|
                        i < j < msgs.len() ==> !(#[trigger] msgs[j] is Choke);
                assert(i != n);
                assert(init[i] == msgs[i]);
                assert forall|j: int| i < j < init.len() implies !(#[trigger] init[j] is Choke) by {
                    assert(msgs[j] == init[j]);
                }
            }
        }
    }
}

/// Over any run of messages the worker declares interest at most once: not
/// at all when it was interested from the start, otherwise once exactly
/// when a bitfield arrived. It stays interested from then on.
pub proof fn lemma_interest_declared_at_most_once(w: WorkerView, msgs: Seq<MessageView>)
    ensures
        interest_declarations(w, msgs) <= 1,
        worker_after_all(w, msgs).am_interested <==> (w.am_interested || has_bitfield(msgs)),
        interest_declarations(w, msgs) == 1 <==> (!w.am_interested && has_bitfield(msgs)),
    decreases msgs.len(),
{
    if msgs.len() > 0 {
        let init = msgs.drop_last();
        let n = msgs.len() - 1;
        lemma_interest_declared_at_most_once(w, init);
        assert(msgs[n] == msgs.last());
        if has_bitfield(init) {
            let i = choose|i: int| 0 <= i < init.len() && #[trigger] init[i] is Bitfield;
            assert(msgs[i] == init[i]);
        }
        if has_bitfield(msgs) && !(msgs.last() is Bitfield) {
            let i = choose|i: int| 0 <= i < msgs.len() && #[trigger] msgs[i] is Bitfield;
            assert(init[i] == msgs[i]);
        }
    }
}

/// The pieces that can be begun are exactly those that start inside the
/// file (at or before its end) and whose nominal end fits in `u64`; the
/// last piece may reach past the end of the file and is then cut short.
pub proof fn lemma_piece_in_file_iff(w: WorkerView, index: int)
    requires
        0 <= index,
    ensures
        piece_in_file(w, index) <==> (index * w.piece_length <= w.file_length && index
            * w.piece_length + w.piece_length <= u64::MAX),
{
}

/// A piece that can be begun starts at `index * piece_length`, is at most
/// `piece_length` long, and ends where the next piece starts or at the end
/// of the file, whichever comes first: consecutive pieces tile the file.
pub proof fn lemma_piece_extent(w: WorkerView, index: int)
    requires
        0 <= index,
        piece_in_file(w, index),
    ensures
        piece_offset(w, index) == index * w.piece_length,
        piece_offset(w, index + 1) == piece_offset(w, index) + w.piece_length,
        0 <= piece_size(w, index) <= w.piece_length,
        piece_offset(w, index) + piece_size(w, index) == if (index + 1) * w.piece_length
            <= w.file_length {
            (index + 1) * w.piece_length
        } else {
            w.file_length as int
        },
{
    assert((index + 1) * w.piece_length == index * w.piece_length + w.piece_length)
        by (nonlinear_arith);
}

/// After a bitfield arrives the worker holds exactly that bitfield, whatever
/// it held before, and the pieces it takes the peer to have are exactly
/// the ones that bitfield marks.
pub proof fn lemma_bitfield_kept(w: WorkerView, bits: Seq<u8>, index: int)
    ensures
        worker_after(w, MessageView::Bitfield(bits)).bitfield == Some(bits),
        worker_after(w, MessageView::Bitfield(bits)).bitfield matches Some(b) && (bit_set(b, index)
            <==> bit_set(bits, index)),
{
}

/// Over a run of messages, the worker holds the last bitfield that arrived:
/// if message `i` is a bitfield and none follows it, that bitfield is the
/// one held at the end.
pub proof fn lemma_last_bitfield_held(w: WorkerView, msgs: Seq<MessageView>, i: int)
    requires
        0 <= i < msgs.len(),
        msgs[i] is Bitfield,
        forall|j: int| i < j < msgs.len() ==> !(#[trigger] msgs[j] is Bitfield),
    ensures
        worker_after_all(w, msgs).bitfield == Some(msgs[i]->Bitfield_0),
    decreases msgs.len(),
{
    let n = msgs.len() - 1;
    assert(msgs.last() == msgs[n]);
    if i < n {
        let init = msgs.drop_last();
        assert(init[i] == msgs[i]);
        assert forall|j: int| i < j < init.len() implies !(#[trigger] init[j] is Bitfield) by {
            assert(init[j] == msgs[j]);
        }
        lemma_last_bitfield_held(w, init, i);
        assert(!(msgs[n] is Bitfield));
    }
}

impl DownloadWorker {
    /// A worker for a torrent with the given piece and file lengths; it is
    /// not interested yet and the peer chokes it.
    pub fn new(piece_length: u32, file_length: u64) -> (r: DownloadWorker)
        ensures
            r@ == (WorkerView {
                am_interested: false,
                peer_choking: true,
                bitfield: None,
                piece_length,
                file_length,
            }),
    {
        DownloadWorker {
            am_interested: false,
            peer_choking: true,
            bitfield: None,
            piece_length,
            file_length,
        }
    }

    /// Reacts to a message of the peer while waiting to be unchoked.
    pub fn handle_message(&mut self, msg: Message) -> (action: WorkerAction)
        ensures
            final(self)@ == worker_after(old(self)@, msg@),
            match msg@ {
                MessageView::Bitfield(_) => if declares_interest(old(self)@, msg@) {
                    action matches WorkerAction::Send(m) && m@ == MessageView::Interested
                } else {
                    action is Continue
                },
                MessageView::Unchoke => action is RequestPieces,
                MessageView::Piece { .. } => action is Finish,
                _ => action is Continue,
            },
    {
        match msg {
            Message::Bitfield(payload) => {
                self.bitfield = Some(Bitfield::new(payload));
                self.send_interested()
            },
            Message::Unchoke => {
                self.peer_choking = false;
                WorkerAction::RequestPieces
            },
            Message::Choke => {
                self.peer_choking = true;
                WorkerAction::Continue
            },
            Message::Piece { .. } => WorkerAction::Finish,
            _ => WorkerAction::Continue,
        }
    }

    /// Declares interest to the peer, once.
    fn send_interested(&mut self) -> (action: WorkerAction)
        ensures
            final(self)@ == (WorkerView { am_interested: true, ..old(self)@ }),
            old(self)@.am_interested ==> action is Continue,
            !old(self)@.am_interested ==> (action matches WorkerAction::Send(m) && m@
                == MessageView::Interested),
    {
        if !self.am_interested {
            self.am_interested = true;
            return WorkerAction::Send(Message::Interested);
        }
        WorkerAction::Continue
    }

    /// One turn of the request loop: takes the next piece off the queue,
    /// puts it back if the peer is known not to have it.
    pub fn next_piece(&self, queue: &mut WorkQueue) -> (step: RequestStep)
        ensures
            self@.peer_choking || old(queue)@.len() == 0 ==> step == RequestStep::Stop
                && final(queue)@ == old(queue)@,
            !self@.peer_choking && old(queue)@.len() > 0 ==> ({
                let piece = old(queue)@.last();
                if self@.bitfield matches Some(bits) && !bit_set(bits, piece as int) {
                    step == RequestStep::Requeued(piece) && final(queue)@ == old(queue)@
                } else {
                    step == RequestStep::Download(piece) && final(queue)@ == old(
                        queue,
                    )@.drop_last()
                }
            }),
    {
        if self.peer_choking {
            return RequestStep::Stop;
        }
        let piece = match queue.pop() {
            Some(idx) => idx,
            None => {
                return RequestStep::Stop;
            },
        };
        if let Some(bf) = &self.bitfield {
            if !bf.has_piece(piece) {
                queue.push(piece);
                assert(final(queue)@ =~= old(queue)@);
                return RequestStep::Requeued(piece);
            }
        }
        RequestStep::Download(piece)
    }

    /// The request for the first block of the first piece the peer has,
    /// unless the peer chokes us or has told us of no piece.
    pub fn request_piece(&self) -> (r: Option<Message>)
        requires
            self@.bitfield matches Some(bits) ==> bits.len() * 8 <= usize::MAX,
        ensures
            self@.peer_choking || self@.bitfield is None ==> r is None,
            !self@.peer_choking && self@.bitfield is Some ==> (r is None <==> forall|i: int|
                !#[trigger] bit_set(self@.bitfield->0, i)),
            !self@.peer_choking && self@.bitfield is Some ==> (r matches Some(m) ==> exists|i: int|
                #![trigger bit_set(self@.bitfield->0, i)]
                {
                    &&& bit_set(self@.bitfield->0, i)
                    &&& forall|j: int| 0 <= j < i ==> !#[trigger] bit_set(self@.bitfield->0, j)
                    &&& m@ == MessageView::Request { index: i as u32, begin: 0, length: BLOCK_MAX }
                }),
    {
        if self.peer_choking {
            return None;
        }
        if let Some(bf) = &self.bitfield {
            let n = bf.pieces();
            let mut i: usize = 0;
            while i < n
                invariant
                    !self@.peer_choking,
                    self@.bitfield == Some(bf@),
                    n == bf@.len() * 8,
                    i <= n,
                    forall|j: int| 0 <= j < i ==> !#[trigger] bit_set(bf@, j),
                decreases n - i,
            {
                if bf.has_piece(i) {
                    let m = Message::Request { index: i as u32, begin: 0, length: BLOCK_MAX };
                    assert(bit_set(bf@, i as int));
                    assert(m@ == MessageView::Request {
                        index: (i as int) as u32,
                        begin: 0,
                        length: BLOCK_MAX,
                    });
                    assert(exists|w: int|
                        #![trigger bit_set(bf@, w)]
                        {
                            &&& bit_set(bf@, w)
                            &&& forall|j: int| 0 <= j < w ==> !#[trigger] bit_set(bf@, j)
                            &&& m@ == MessageView::Request {
                                index: w as u32,
                                begin: 0,
                                length: BLOCK_MAX,
                            }
                        }) by {
                        let w = i as int;
                        assert(bit_set(bf@, w));
                    }
                    assert(self@.bitfield->0 == bf@);
                    assert(!self@.peer_choking);
                    return Some(m);
                }
                i = i + 1;
            }
            assert forall|j: int| !#[trigger] bit_set(bf@, j) by {
                if bit_set(bf@, j) {
                    assert(j < n);
                }
            }
        }
        None
    }

    /// Whether `begin_piece` can work out the bounds of piece `index`.
    pub fn can_begin_piece(&self, index: usize) -> (r: bool)
        ensures
            r == piece_in_file(self@, index as int),
    {
        let pl = self.piece_length as u64;
        match (index as u64).checked_mul(pl) {
            None => false,
            Some(offset) => match offset.checked_add(pl) {
                None => false,
                Some(end) => end <= self.file_length || offset <= self.file_length,
            },
        }
    }

    /// Starts downloading piece `index`: works out where it lies in the file
    /// and how long it is, with nothing requested or received yet.
    pub fn begin_piece(&self, index: usize) -> (r: PieceDownload)
        requires
            piece_in_file(self@, index as int),
        ensures
            r@.index == index,
            r@.offset == piece_offset(self@, index as int),
            r@.piece_len == piece_size(self@, index as int),
            r@.buffer == Seq::new(r@.piece_len as nat, |i: int| 0u8),
            r@.downloaded == 0,
            r@.requested == 0,
            r@.backlog == 0,
            r.wf(),
    {
        proof {
            assert(index * self.piece_length <= u64::MAX);
        }
        let begin_offset = index as u64 * self.piece_length as u64;
        let mut piece_len = self.piece_length;
        if begin_offset + piece_len as u64 > self.file_length {
            piece_len = (self.file_length - begin_offset) as u32;
        }
        let buffer = vec![0u8; piece_len as usize];
        assert(buffer@ =~= Seq::new(piece_len as nat, |i: int| 0u8));
        PieceDownload {
            index,
            offset: begin_offset,
            piece_len,
            buffer,
            downloaded: 0,
            requested: 0,
            backlog: 0,
        }
    }
}

/// A piece being downloaded: which blocks were requested, how many bytes
/// arrived, and the piece's bytes as far as they arrived.
pub struct PieceDownload {
    index: usize,
    offset: u64,
    piece_len: u32,
    buffer: Vec<u8>,
    downloaded: u32,
    requested: u32,
    backlog: i32,
}

/// What a [`PieceDownload`] holds.
pub struct PieceView {
    pub index: usize,
    pub offset: u64,
    pub piece_len: u32,
    pub buffer: Seq<u8>,
    pub downloaded: u32,
    pub requested: u32,
    pub backlog: i32,
}

impl View for PieceDownload {
    type V = PieceView;

    closed spec fn view(&self) -> PieceView {
        PieceView {
            index: self.index,
            offset: self.offset,
            piece_len: self.piece_len,
            buffer: self.buffer@,
            downloaded: self.downloaded,
            requested: self.requested,
            backlog: self.backlog,
        }
    }
}

/// The size of the next block to request.
pub open spec fn next_block_size(p: PieceView) -> u32 {
    if BLOCK_MAX <= p.piece_len - p.requested {
        BLOCK_MAX
    } else {
        (p.piece_len - p.requested) as u32
    }
}

/// Whether a block of the given piece and offset belongs to this download
/// and fits in it.
pub open spec fn block_fits(p: PieceView, index: u32, begin: u32, block: Seq<u8>) -> bool {
    &&& index as usize == p.index
    &&& begin < p.piece_len
    &&& begin + (block.len() as u32) <= p.piece_len
}

/// The messages a download takes in without an arithmetic overflow or an
/// out-of-bounds copy: a block for this piece that starts inside it must
/// have an end that fits in `u32`, and when it fits in the piece its length
/// must fit in `u32` and the byte count and the count of outstanding
/// requests must not overflow. A block that no request is outstanding for
/// (a duplicate, or one request answered in several blocks) is taken in
/// like any other, and the count of outstanding requests goes below zero.
pub open spec fn takes_without_overflow(p: PieceView, m: MessageView) -> bool {
    match m {
        MessageView::Piece { index, begin, block } => (index as usize == p.index && begin
            < p.piece_len) ==> {
            &&& begin + (block.len() as u32) <= u32::MAX
            &&& begin + (block.len() as u32) <= p.piece_len ==> {
                &&& block.len() <= u32::MAX
                &&& p.downloaded + block.len() <= u32::MAX
                &&& p.backlog > i32::MIN
            }
        },
        _ => true,
    }
}

/// `buf` with `block` written over it at `begin`.
pub open spec fn write_block(buf: Seq<u8>, begin: int, block: Seq<u8>) -> Seq<u8> {
    buf.take(begin) + block + buf.skip(begin + block.len())
}

impl PieceDownload {
    /// The download's invariant: the buffer holds the whole piece, requests
    /// never reach past its end, and the count of outstanding requests is at
    /// most `MAX_BACKLOG` (it goes negative when more blocks arrive than
    /// were requested).
    pub open spec fn wf(&self) -> bool {
        &&& self@.buffer.len() == self@.piece_len
        &&& self@.requested <= self@.piece_len
        &&& self@.backlog <= MAX_BACKLOG
    }

    /// The next block request to send, if fewer than `MAX_BACKLOG` are
    /// outstanding and part of the piece is not requested yet. Requests go
    /// through the piece in order, each starting where the last one ended.
    pub fn next_request(&mut self) -> (r: Option<Message>)
        requires
            old(self).wf(),
        ensures
            final(self).wf(),
            if old(self)@.backlog < MAX_BACKLOG && old(self)@.requested < old(self)@.piece_len {
                let size = next_block_size(old(self)@);
                &&& r matches Some(m) && m@ == (MessageView::Request {
                    index: old(self)@.index as u32,
                    begin: old(self)@.requested,
                    length: size,
                })
                &&& final(self)@ == (PieceView {
                    requested: (old(self)@.requested + size) as u32,
                    backlog: (old(self)@.backlog + 1) as i32,
                    ..old(self)@
                })
            } else {
                r is None && final(self)@ == old(self)@
            },
    {
        if self.backlog < MAX_BACKLOG && self.requested < self.piece_len {
            let remaining = self.piece_len - self.requested;
            let block_size = if BLOCK_MAX <= remaining {
                BLOCK_MAX
            } else {
                remaining
            };
            let msg = Message::Request {
                index: self.index as u32,
                begin: self.requested,
                length: block_size,
            };
            self.backlog = self.backlog + 1;
            self.requested = self.requested + block_size;
            Some(msg)
        } else {
            None
        }
    }

    /// Takes in a message that arrived during the download: a block of this
    /// piece that fits in it is written into place, a choke ends the
    /// download, anything else is ignored.
    pub fn handle_message(&mut self, msg: Message) -> (r: Result<(), DownloadError>)
        requires
            old(self).wf(),
            takes_without_overflow(old(self)@, msg@),
        ensures
            final(self).wf(),
            match msg@ {
                MessageView::Piece { index, begin, block } => {
                    &&& r is Ok
                    &&& if block_fits(old(self)@, index, begin, block) {
                        final(self)@ == (PieceView {
                            buffer: write_block(old(self)@.buffer, begin as int, block),
                            downloaded: (old(self)@.downloaded + block.len()) as u32,
                            backlog: (old(self)@.backlog - 1) as i32,
                            ..old(self)@
                        })
                    } else {
                        final(self)@ == old(self)@
                    }
                },
                MessageView::Choke => r == Err::<(), DownloadError>(DownloadError::Choked)
                    && final(self)@ == old(self)@,
                _ => r is Ok && final(self)@ == old(self)@,
            },
    {
        let ghost m = msg@;
        match msg {
            Message::Piece { index: idx, begin, block } => {
                assert(m == MessageView::Piece { index: idx, begin, block: block@ });
                if idx as usize == self.index && begin < self.piece_len && (begin
                    + block.len() as u32) <= self.piece_len {
                    let downloaded = self.downloaded + block.len() as u32;
                    let backlog = self.backlog - 1;
                    write_into(&mut self.buffer, begin as usize, block.as_slice());
                    self.downloaded = downloaded;
                    self.backlog = backlog;
                }
                Ok(())
            },
            Message::Choke => Err(DownloadError::Choked),
            _ => Ok(()),
        }
    }

    /// Whether `handle_message` can take `msg` in.
    pub fn can_take(&self, msg: &Message) -> (r: bool)
        ensures
            r == takes_without_overflow(self@, msg@),
    {
        match msg {
            Message::Piece { index, begin, block } => {
                if *index as usize == self.index && *begin < self.piece_len {
                    let len = block.len();
                    match begin.checked_add(len as u32) {
                        None => false,
                        Some(end) => {
                            if end <= self.piece_len {
                                len as u64 <= u32::MAX as u64 && self.downloaded as u64 + len as u64
                                    <= u32::MAX as u64 && self.backlog > i32::MIN
                            } else {
                                true
                            }
                        },
                    }
                } else {
                    true
                }
            },
            _ => true,
        }
    }

    /// Whether as many bytes arrived as the piece holds.
    pub fn is_complete(&self) -> (r: bool)
        ensures
            r == (self@.downloaded >= self@.piece_len),
    {
        self.downloaded >= self.piece_len
    }

    /// The index of the piece.
    pub fn index(&self) -> (r: usize)
        ensures
            r == self@.index,
    {
        self.index
    }

    /// Where the piece starts in the file.
    pub fn offset(&self) -> (r: u64)
        ensures
            r == self@.offset,
    {
        self.offset
    }

    /// The piece's bytes as far as they arrived.
    pub fn data(&self) -> (r: &[u8])
        ensures
            r@ == self@.buffer,
    {
        self.buffer.as_slice()
    }
}

/// Writes `block` over `buf` at `start`.
fn write_into(buf: &mut Vec<u8>, start: usize, block: &[u8])
    requires
        start + block@.len() <= old(buf)@.len(),
    ensures
        final(buf)@ == write_block(old(buf)@, start as int, block@),
{
    let ghost old_buf = buf@;
    let len = buf.len();
    let n = block.len();
    let mut k: usize = 0;
    while k < n
        invariant
            len == buf@.len(),
            n == block@.len(),
            start + n <= len,
            buf@.len() == old_buf.len(),
            0 <= k <= n,
            forall|j: int|
                0 <= j < buf@.len() ==> #[trigger] buf@[j] == if start <= j < start + k {
                    block@[j - start]
                } else {
                    old_buf[j]
                },
        decreases n - k,
    {
        buf.set(start + k, block[k]);
        k = k + 1;
    }
    assert(buf@ =~= write_block(old_buf, start as int, block@));
}

/// Every block requested is non-empty and ends inside the piece; it is
/// 16 KiB long unless it is the piece's last block, which takes what is
/// left.
pub proof fn lemma_block_size_bounds(p: PieceView)
    requires
        p.requested < p.piece_len,
    ensures
        BLOCK_MAX == 16 * 1024,
        0 < next_block_size(p) <= BLOCK_MAX,
        p.requested + next_block_size(p) <= p.piece_len,
        next_block_size(p) == BLOCK_MAX || p.requested + next_block_size(p) == p.piece_len,
{
}

/// A block is written into the piece exactly when it is for this piece and
/// lies inside it: its piece index is the download's, and it starts before
/// the piece's end and ends at or before it.
pub proof fn lemma_block_fits_iff(p: PieceView, index: u32, begin: u32, block: Seq<u8>)
    requires
        begin + block.len() <= u32::MAX,
    ensures
        block_fits(p, index, begin, block) <==> (index as int == p.index as int && begin
            < p.piece_len && begin + block.len() <= p.piece_len),
{
}

/// Any message is taken in when a block's end, its length, the count of
/// bytes received and the count of outstanding requests all stay within
/// their integer types: in particular a block with no request outstanding
/// for it is taken in.
pub proof fn lemma_takes_in_range_blocks(p: PieceView, m: MessageView)
    requires
        m matches MessageView::Piece { begin, block, .. } ==> {
            &&& begin + block.len() <= u32::MAX
            &&& p.downloaded + block.len() <= u32::MAX
            &&& p.backlog > i32::MIN
        },
    ensures
        takes_without_overflow(p, m),
        MAX_BACKLOG == 5,
{
}

/// Writing a block puts its bytes at `begin`, in order, and leaves every
/// other byte and the length of the buffer as they were.
pub proof fn lemma_write_block_places_bytes(buf: Seq<u8>, begin: int, block: Seq<u8>)
    requires
        0 <= begin,
        begin + block.len() <= buf.len(),
    ensures
        write_block(buf, begin, block).len() == buf.len(),
        forall|k: int|
            0 <= k < block.len() ==> #[trigger] write_block(buf, begin, block)[begin + k]
                == block[k],
        forall|j: int|
            0 <= j < buf.len() && !(begin <= j < begin + block.len()) ==> #[trigger] write_block(
                buf,
                begin,
                block,
            )[j] == buf[j],
{
    let r = write_block(buf, begin, block);
    assert forall|k: int| 0 <= k < block.len() implies #[trigger] r[begin + k] == block[k] by {
        assert(r[begin + k] == (buf.take(begin) + block)[begin + k]);
    }
}

} // verus!
