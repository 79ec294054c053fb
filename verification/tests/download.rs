use bitborrower::download::{
    DownloadError, DownloadWorker, RequestStep, WorkerAction, BLOCK_MAX, MAX_BACKLOG,
};
use bitborrower::message::Message;
use bitborrower::queue::WorkQueue;

fn unchoked(bits: Option<Vec<u8>>, piece_length: u32, file_length: u64) -> DownloadWorker {
    let mut w = DownloadWorker::new(piece_length, file_length);
    if let Some(b) = bits {
        w.handle_message(Message::Bitfield(b));
    }
    assert!(matches!(w.handle_message(Message::Unchoke), WorkerAction::RequestPieces));
    w
}

#[test]
fn bitfield_makes_worker_interested_once() {
    let mut w = DownloadWorker::new(16, 64);
    assert!(matches!(
        w.handle_message(Message::Bitfield(vec![0xf0])),
        WorkerAction::Send(Message::Interested)
    ));
    assert!(matches!(w.handle_message(Message::Bitfield(vec![0xf0])), WorkerAction::Continue));
}

#[test]
fn other_messages_while_waiting() {
    let mut w = DownloadWorker::new(16, 64);
    assert!(matches!(w.handle_message(Message::Choke), WorkerAction::Continue));
    assert!(matches!(w.handle_message(Message::Have(3)), WorkerAction::Continue));
    assert!(matches!(w.handle_message(Message::NotInterested), WorkerAction::Continue));
    assert!(matches!(
        w.handle_message(Message::Piece { index: 0, begin: 0, block: vec![1] }),
        WorkerAction::Finish
    ));
    assert!(matches!(w.handle_message(Message::Unchoke), WorkerAction::RequestPieces));
}

#[test]
fn choked_worker_stops_requesting() {
    let w = DownloadWorker::new(16, 64);
    let mut q = WorkQueue::new(4);
    assert_eq!(w.next_piece(&mut q), RequestStep::Stop);
    assert_eq!(q.pop(), Some(0));
}

#[test]
fn unchoked_worker_takes_pieces_in_order() {
    let w = unchoked(None, 16, 64);
    let mut q = WorkQueue::new(2);
    assert_eq!(w.next_piece(&mut q), RequestStep::Download(0));
    assert_eq!(w.next_piece(&mut q), RequestStep::Download(1));
    assert_eq!(w.next_piece(&mut q), RequestStep::Stop);
}

#[test]
fn missing_piece_goes_back_on_the_queue() {
    let w = unchoked(Some(vec![0b0100_0000]), 16, 64);
    let mut q = WorkQueue::new(2);
    assert_eq!(w.next_piece(&mut q), RequestStep::Requeued(0));
    assert_eq!(q.pop(), Some(0));
    assert_eq!(w.next_piece(&mut q), RequestStep::Download(1));
}

#[test]
fn request_piece_asks_for_first_available() {
    let w = unchoked(Some(vec![0b0001_0000, 0xff]), 16, 64);
    match w.request_piece() {
        Some(Message::Request { index, begin, length }) => {
            assert_eq!((index, begin, length), (3, 0, BLOCK_MAX));
        }
        other => panic!("unexpected {:?}", other),
    }
    let none = unchoked(Some(vec![0, 0]), 16, 64);
    assert!(none.request_piece().is_none());
    let choked = DownloadWorker::new(16, 64);
    assert!(choked.request_piece().is_none());
    let no_bits = unchoked(None, 16, 64);
    assert!(no_bits.request_piece().is_none());
}

#[test]
fn last_piece_is_cut_at_end_of_file() {
    let w = DownloadWorker::new(100, 250);
    let p = w.begin_piece(2);
    assert_eq!(p.offset(), 200);
    assert_eq!(p.data().len(), 50);
    let q = w.begin_piece(1);
    assert_eq!(q.offset(), 100);
    assert_eq!(q.data().len(), 100);
    assert_eq!(q.index(), 1);
}

#[test]
fn requests_cover_the_piece_in_blocks() {
    let w = DownloadWorker::new(40000, 1_000_000);
    let mut p = w.begin_piece(3);
    let mut seen = vec![];
    while let Some(m) = p.next_request() {
        match m {
            Message::Request { index, begin, length } => seen.push((index, begin, length)),
            other => panic!("unexpected {:?}", other),
        }
    }
    assert_eq!(seen, vec![(3, 0, 16384), (3, 16384, 16384), (3, 32768, 7232)]);
}

#[test]
fn at_most_five_requests_outstanding() {
    let w = DownloadWorker::new(10 * BLOCK_MAX, u64::MAX);
    let mut p = w.begin_piece(0);
    let mut n = 0;
    while p.next_request().is_some() {
        n += 1;
    }
    assert_eq!(n, MAX_BACKLOG);
    p.handle_message(Message::Piece { index: 0, begin: 0, block: vec![1; 16384] }).unwrap();
    assert!(p.next_request().is_some());
    assert!(p.next_request().is_none());
}

#[test]
fn blocks_are_written_into_place() {
    let w = DownloadWorker::new(8, 8);
    let mut p = w.begin_piece(0);
    assert!(p.next_request().is_some());
    assert!(p.next_request().is_none());
    assert!(!p.is_complete());
    p.handle_message(Message::Piece { index: 0, begin: 2, block: vec![7, 8, 9] }).unwrap();
    assert_eq!(p.data(), &[0, 0, 7, 8, 9, 0, 0, 0]);
    assert!(!p.is_complete());
}

#[test]
fn foreign_or_oversized_blocks_are_ignored() {
    let w = DownloadWorker::new(8, 8);
    let mut p = w.begin_piece(0);
    p.next_request();
    p.handle_message(Message::Piece { index: 1, begin: 0, block: vec![1; 8] }).unwrap();
    p.handle_message(Message::Piece { index: 0, begin: 4, block: vec![1; 5] }).unwrap();
    p.handle_message(Message::Piece { index: 0, begin: 8, block: vec![] }).unwrap();
    p.handle_message(Message::Have(0)).unwrap();
    assert_eq!(p.data(), &[0; 8]);
    assert!(!p.is_complete());
    p.handle_message(Message::Piece { index: 0, begin: 0, block: vec![5; 8] }).unwrap();
    assert!(p.is_complete());
    assert_eq!(p.data(), &[5; 8]);
}

#[test]
fn choke_during_download_fails() {
    let w = DownloadWorker::new(8, 8);
    let mut p = w.begin_piece(0);
    assert_eq!(p.handle_message(Message::Choke), Err(DownloadError::Choked));
}

#[test]
fn one_request_answered_in_two_halves_completes() {
    let w = DownloadWorker::new(8, 8);
    let mut p = w.begin_piece(0);
    assert!(p.next_request().is_some());
    assert!(p.next_request().is_none());
    let first = Message::Piece { index: 0, begin: 0, block: vec![1, 2, 3, 4] };
    assert!(p.can_take(&first));
    p.handle_message(first).unwrap();
    let second = Message::Piece { index: 0, begin: 4, block: vec![5, 6, 7, 8] };
    assert!(p.can_take(&second));
    p.handle_message(second).unwrap();
    assert!(p.is_complete());
    assert_eq!(p.data(), &[1, 2, 3, 4, 5, 6, 7, 8]);
}

#[test]
fn duplicate_blocks_count_as_received_bytes() {
    let w = DownloadWorker::new(2 * BLOCK_MAX, 2 * BLOCK_MAX as u64);
    let mut p = w.begin_piece(0);
    assert!(p.next_request().is_some());
    assert!(p.next_request().is_some());
    assert!(p.next_request().is_none());
    let block = Message::Piece { index: 0, begin: 0, block: vec![9; 16384] };
    p.handle_message(block.clone()).unwrap();
    assert!(!p.is_complete());
    p.handle_message(block).unwrap();
    assert!(p.is_complete());
}

#[test]
fn block_end_overflowing_u32_is_refused_by_can_take() {
    let w = DownloadWorker::new(8, 8);
    let p = w.begin_piece(0);
    let m = Message::Piece { index: 0, begin: 7, block: vec![0; 8] };
    assert!(p.can_take(&m));
    assert!(w.can_begin_piece(0));
    assert!(!w.can_begin_piece(2));
    let big = DownloadWorker::new(u32::MAX, u64::MAX);
    assert!(!big.can_begin_piece(usize::MAX));
}
