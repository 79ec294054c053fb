use bitborrower::torrent::{hash_hex, File, FileLayout, Info, TorrentError};

fn info(pieces: Vec<u8>, length: Option<u64>, files: Option<Vec<File>>) -> Info {
    Info { name: "name".to_string(), piece_length: 16, pieces, length, files }
}

#[test]
fn hash_is_sha1_of_the_info_bytes() {
    let h = Info::hash(b"abc");
    assert_eq!(hash_hex(&h), "a9993e364706816aba3e25717850c26c9cd0d89d");
    let empty = Info::hash(b"");
    assert_eq!(hash_hex(&empty), "da39a3ee5e6b4b0d3255bfef95601890afd80709");
}

#[test]
fn hex_is_lowercase_high_half_first() {
    let mut h = [0u8; 20];
    h[0] = 0xAB;
    h[19] = 0x0f;
    let s = hash_hex(&h);
    assert_eq!(s.len(), 40);
    assert!(s.starts_with("ab00"));
    assert!(s.ends_with("000f"));
}

#[test]
fn piece_count_needs_whole_hashes() {
    assert_eq!(info(vec![0; 40], Some(1), None).piece_count(), Ok(2));
    assert_eq!(info(vec![], Some(1), None).piece_count(), Ok(0));
    assert_eq!(
        info(vec![0; 41], Some(1), None).piece_count(),
        Err(TorrentError::PiecesNotMultipleOf20)
    );
}

#[test]
fn layout_prefers_files() {
    let f = File { length: 3, path: vec!["a".to_string()] };
    assert_eq!(info(vec![], Some(5), Some(vec![f])).layout(), FileLayout::MultiFile);
    assert_eq!(info(vec![], Some(5), None).layout(), FileLayout::SingleFile(5));
    assert_eq!(info(vec![], None, None).layout(), FileLayout::Missing);
}

#[test]
fn path_is_joined_with_slashes() {
    let f = File { length: 1, path: vec!["dir".to_string(), "sub".to_string(), "x.txt".to_string()] };
    assert_eq!(f.joined_path(), "dir/sub/x.txt");
    let single = File { length: 1, path: vec!["only".to_string()] };
    assert_eq!(single.joined_path(), "only");
    let none = File { length: 1, path: vec![] };
    assert_eq!(none.joined_path(), "");
}
