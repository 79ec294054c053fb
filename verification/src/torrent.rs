//! Torrent metadata, its info hash and the checks made on it.

use sha1::{Digest, Sha1};
use vstd::prelude::*;

verus! {

/// A metainfo (.torrent) file.
#[derive(Debug)]
pub struct Torrent {
    /// The announce URL of the tracker.
    pub announce: String,
    /// The description of the content.
    pub info: Info,
}

/// The info dictionary of a torrent.
#[derive(Debug)]
pub struct Info {
    /// The filename. This is purely advisory.
    pub name: String,
    /// The number of bytes in each piece; the last piece may be shorter.
    pub piece_length: u64,
    /// The concatenation of the 20-byte SHA1 hash of every piece.
    pub pieces: Vec<u8>,
    /// Length of the file in bytes; only for single-file torrents.
    pub length: Option<u64>,
    /// The files; only for multi-file torrents.
    pub files: Option<Vec<File>>,
}

/// A file of a multi-file torrent.
#[derive(Debug)]
pub struct File {
    /// Length of the file in bytes.
    pub length: u64,
    /// The directory names and, last, the file name.
    pub path: Vec<String>,
}

/// How the content of a torrent is laid out.
#[derive(Debug, Clone, Copy, PartialEq, Eq, Structural)]
pub enum FileLayout {
    /// A directory of files.
    MultiFile,
    /// One file of the given length.
    SingleFile(u64),
    /// Neither a length nor a list of files is given.
    Missing,
}

/// Why torrent metadata is not usable.
#[derive(Debug, Clone, Copy, PartialEq, Eq, Structural)]
pub enum TorrentError {
    /// The piece hashes do not come in whole 20-byte hashes.
    PiecesNotMultipleOf20,
}

/// The length of a piece hash.
pub const HASH_LEN: usize = 20;

/// The SHA1 digest of `data`.
pub uninterp spec fn sha1_digest(data: Seq<u8>) -> Seq<u8>;

/// Hashes `data` with the `sha1` crate (`Sha1::new`, `update`, `finalize`).
/// The contract claims only that the result is the SHA1 digest of `data`,
/// a function of `data` alone, named `sha1_digest`.
#[verifier::external_body]
fn sha1(data: &[u8]) -> (r: [u8; 20])
    ensures
        r@ == sha1_digest(data@),
{
    let mut hasher = Sha1::new();
    hasher.update(data);
    hasher.finalize().into()
}

/// The lowercase hexadecimal digit for `n` (below 16).
pub open spec fn hex_digit(n: u8) -> char {
    if n < 10 {
        (48 + n) as char
    } else {
        (87 + n) as char
    }
}

/// The lowercase hexadecimal text of `data`: two digits per byte, high half first.
pub open spec fn hex_lower(data: Seq<u8>) -> Seq<char>
    decreases data.len(),
{
    if data.len() == 0 {
        Seq::empty()
    } else {
        seq![hex_digit(data[0] >> 4u8), hex_digit(data[0] & 0x0fu8)] + hex_lower(data.drop_first())
    }
}

/// Encodes `data` with `hex::encode`. The contract claims its documented
/// result: the lowercase hex digits of every byte, high half first (hex's
/// `BytesToHexChars` looks each half up in "0123456789abcdef").
#[verifier::external_body]
fn encode_hex(data: &[u8]) -> (r: String)
    ensures
        r@ == hex_lower(data@),
{
    hex::encode(data)
}

/// The lowercase hexadecimal text of an info hash.
pub fn hash_hex(hash: &[u8; 20]) -> (r: String)
    ensures
        r@ == hex_lower(hash@),
        r@.len() == 40,
{
    proof {
        lemma_hex_lower_len(hash@);
    }
    encode_hex(hash.as_slice())
}

/// Byte `k` of the data becomes characters `2k` and `2k + 1` of its hex
/// text: the digit of its high half, then that of its low half, each from
/// "0123456789abcdef".
pub proof fn lemma_hex_lower_digits(data: Seq<u8>, k: int)
    requires
        0 <= k < data.len(),
    ensures
        hex_lower(data).len() == 2 * data.len(),
        hex_lower(data)[2 * k] == "0123456789abcdef"@[(data[k] / 16) as int],
        hex_lower(data)[2 * k + 1] == "0123456789abcdef"@[(data[k] % 16) as int],
    decreases data.len(),
{
    reveal_strlit("0123456789abcdef");
    lemma_hex_lower_len(data);
    let b = data[0];
    assert(b >> 4u8 == b / 16 && b & 0x0fu8 == b % 16) by (bit_vector);
    if k > 0 {
        lemma_hex_lower_digits(data.drop_first(), k - 1);
        let rest = hex_lower(data.drop_first());
        assert(hex_lower(data)[2 * k] == rest[2 * (k - 1)]);
        assert(hex_lower(data)[2 * k + 1] == rest[2 * (k - 1) + 1]);
    }
}

/// Hex text has two digits per byte.
pub proof fn lemma_hex_lower_len(data: Seq<u8>)
    ensures
        hex_lower(data).len() == 2 * data.len(),
    decreases data.len(),
{
    if data.len() > 0 {
        lemma_hex_lower_len(data.drop_first());
    }
}

/// The path components joined with `sep` between them.
pub open spec fn joined(parts: Seq<Seq<char>>, sep: Seq<char>) -> Seq<char>
    decreases parts.len(),
{
    if parts.len() == 0 {
        Seq::empty()
    } else if parts.len() == 1 {
        parts[0]
    } else {
        joined(parts.drop_last(), sep) + sep + parts.last()
    }
}

/// One component is the path itself; each further component is added after
/// one separator; the result is as long as the components and the
/// separators between them.
pub proof fn lemma_joined_parts(parts: Seq<Seq<char>>, part: Seq<char>, sep: Seq<char>)
    ensures
        joined(Seq::empty(), sep) == Seq::<char>::empty(),
        joined(seq![part], sep) == part,
        parts.len() > 0 ==> joined(parts.push(part), sep) == joined(parts, sep) + sep + part,
{
    assert(seq![part].len() == 1);
    assert(parts.push(part).drop_last() =~= parts);
}

impl Info {
    /// The info hash: the SHA1 digest of the bencoded info dictionary.
    pub fn hash(info_bytes: &[u8]) -> (r: [u8; 20])
        ensures
            r@ == sha1_digest(info_bytes@),
    {
        sha1(info_bytes)
    }

    /// The number of pieces: one per 20-byte hash in `pieces`.
    pub fn piece_count(&self) -> (r: Result<usize, TorrentError>)
        ensures
            self.pieces@.len() % 20 == 0 ==> r == Ok::<usize, TorrentError>(
                (self.pieces@.len() / 20) as usize,
            ),
            self.pieces@.len() % 20 != 0 ==> r == Err::<usize, TorrentError>(
                TorrentError::PiecesNotMultipleOf20,
            ),
    {
        let n = self.pieces.len();
        if n % HASH_LEN != 0 {
            return Err(TorrentError::PiecesNotMultipleOf20);
        }
        Ok(n / HASH_LEN)
    }

    /// How the content is laid out: a list of files wins over a length.
    pub fn layout(&self) -> (r: FileLayout)
        ensures
            self.files is Some ==> r == FileLayout::MultiFile,
            self.files is None ==> match self.length {
                Some(len) => r == FileLayout::SingleFile(len),
                None => r == FileLayout::Missing,
            },
    {
        if self.files.is_some() {
            FileLayout::MultiFile
        } else if let Some(length) = self.length {
            FileLayout::SingleFile(length)
        } else {
            FileLayout::Missing
        }
    }
}

impl File {
    /// The file's path, its components joined with "/".
    pub fn joined_path(&self) -> (r: String)
        ensures
            r@ == joined(self.path@.map_values(|s: String| s@), seq!['/']),
    {
        let sep = "/";
        proof {
            reveal_strlit("/");
        }
        let ghost parts = self.path@.map_values(|s: String| s@);
        let mut res = String::new();
        let mut i: usize = 0;
        while i < self.path.len()
            invariant
                i <= self.path@.len(),
                parts == self.path@.map_values(|s: String| s@),
                sep@ == seq!['/'],
                res@ == joined(parts.take(i as int), seq!['/']),
            decreases self.path@.len() - i,
        {
            if i != 0 {
                res.append(sep);
            }
            res.append(self.path[i].as_str());
            assert(parts.take(i + 1).drop_last() =~= parts.take(i as int));
            i = i + 1;
        }
        assert(parts.take(i as int) =~= parts);
        res
    }
}

} // verus!
