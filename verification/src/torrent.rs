//! The metainfo of a torrent: tracker URL, file layout, piece length and piece hashes.
use vstd::prelude::*;
use crate::primitives::{sha1_digest, sha1_hash};

verus! {

/// Metainfo files (also known as .torrent files) are bencoded dictionaries with the following keys:
pub struct Torrent {
    /// The URL of the tracker.
    pub announce: String,
    /// This maps to a dictionary, with keys described below.
    pub info: Info,
}

/// info dictionary
pub struct Info {
    /// UTF-8 encoded string which is the suggested name to save the file (or directory) as.
    pub name: String,
    /// The number of bytes in each piece; all pieces have this length except possibly
    /// the last one, which may be shorter.
    pub plength: usize,
    /// The SHA-1 hash of each piece, in order.
    pub pieces: Pieces,
    /// There is also a key length or a key files, but not both or neither.
    pub keys: Keys,
}

pub enum Keys {
    /// If length is present then the download represents a single file,
    SingleFile { length: usize },
    /// otherwise it represents a set of files which go in a directory structure.
    MultiFile { files: Vec<File> },
}

pub struct File {
    /// length - The length of the file, in bytes.
    pub length: usize,
    /// A list of UTF-8 encoded strings corresponding to subdirectory names,
    /// the last of which is the actual file name (a zero length list is an error case).
    pub path: Vec<String>,
}

/// The piece hashes: 20 bytes each.
pub struct Pieces(pub Vec<[u8; 20]>);

/// Why a piece hash string is refused.
#[derive(Debug, PartialEq, Eq)]
pub enum PiecesError {
    /// Its length is not a multiple of 20.
    NotMultipleOf20,
}

/// The total length of `files`.
pub open spec fn files_length(files: Seq<File>) -> nat
    decreases files.len(),
{
    if files.len() == 0 {
        0
    } else {
        files_length(files.drop_last()) + files.last().length as nat
    }
}

impl Torrent {
    /// The number of bytes that the torrent downloads: the single file's length, or the
    /// sum of the files' lengths.
    pub open spec fn spec_length(&self) -> nat {
        match self.info.keys {
            Keys::SingleFile { length } => length as nat,
            Keys::MultiFile { files } => files_length(files@),
        }
    }

    pub fn length(&self) -> (r: usize)
        requires
            self.spec_length() <= usize::MAX,
        ensures
            r == self.spec_length(),
    {
        match &self.info.keys {
            Keys::SingleFile { length } => *length,
            Keys::MultiFile { files } => {
                let mut total: usize = 0;
                let mut i: usize = 0;
                while i < files.len()
                    invariant
                        i <= files@.len(),
                        files_length(files@) <= usize::MAX,
                        total == files_length(files@.take(i as int)),
                    decreases files@.len() - i,
                {
                    proof {
                        assert(files@.take(i + 1).drop_last() =~= files@.take(i as int));
                        lemma_files_length_prefix(files@, i + 1);
                    }
                    total = total + files[i].length;
                    i = i + 1;
                }
                assert(files@.take(files@.len() as int) =~= files@);
                total
            },
        }
    }
}

/// The files of a prefix are no longer in total than all of them.
pub proof fn lemma_files_length_prefix(files: Seq<File>, i: int)
    requires
        0 <= i <= files.len(),
    ensures
        files_length(files.take(i)) <= files_length(files),
    decreases files.len() - i,
{
    if i < files.len() {
        lemma_files_length_prefix(files, i + 1);
        assert(files.take(i + 1).drop_last() =~= files.take(i));
    } else {
        assert(files.take(i) =~= files);
    }
}

/// A single-file torrent downloads the file's length; a torrent with a list of no files
/// downloads nothing.
pub proof fn lemma_length_base(t: Torrent)
    ensures
        t.info.keys is SingleFile ==> t.spec_length() == t.info.keys->length,
        t.info.keys is MultiFile && t.info.keys->files@.len() == 0 ==> t.spec_length() == 0,
{
}

/// Adding one more file to a torrent's list of files adds its length to what the torrent
/// downloads: every file counts, the last one too.
pub proof fn lemma_length_adds_file(t1: Torrent, t2: Torrent, f: File)
    requires
        t1.info.keys is MultiFile,
        t2.info.keys is MultiFile,
        t2.info.keys->files@ == t1.info.keys->files@.push(f),
    ensures
        t2.spec_length() == t1.spec_length() + f.length,
{
    assert(t1.info.keys->files@.push(f).drop_last() =~= t1.info.keys->files@);
}

/// The bytes of the piece hashes, one after another.
pub open spec fn pieces_bytes(p: Seq<[u8; 20]>) -> Seq<u8>
    decreases p.len(),
{
    if p.len() == 0 {
        Seq::empty()
    } else {
        pieces_bytes(p.drop_last()) + p.last()@
    }
}

proof fn lemma_pieces_bytes_len(p: Seq<[u8; 20]>)
    ensures
        pieces_bytes(p).len() == 20 * p.len(),
    decreases p.len(),
{
    if p.len() > 0 {
        lemma_pieces_bytes_len(p.drop_last());
    }
}

/// Piece hash `i` is the bytes `20 * i .. 20 * i + 20` of the hash string.
pub proof fn lemma_pieces_bytes_index(p: Seq<[u8; 20]>, i: int)
    requires
        0 <= i < p.len(),
    ensures
        pieces_bytes(p).len() == 20 * p.len(),
        pieces_bytes(p).subrange(20 * i, 20 * i + 20) == p[i]@,
    decreases p.len(),
{
    lemma_pieces_bytes_len(p);
    lemma_pieces_bytes_len(p.drop_last());
    if i < p.len() - 1 {
        lemma_pieces_bytes_index(p.drop_last(), i);
        assert(pieces_bytes(p).subrange(20 * i, 20 * i + 20) =~= pieces_bytes(p.drop_last()).subrange(20 * i, 20 * i + 20));
    } else {
        assert(pieces_bytes(p).subrange(20 * i, 20 * i + 20) =~= p.last()@);
    }
}

/// Two lists of piece hashes with the same bytes are the same list: splitting the
/// joined hashes gives the list back (and joining split hashes gives the string back,
/// by the contract of `Pieces::from_bytes`).
pub proof fn lemma_pieces_bytes_injective(p: Seq<[u8; 20]>, q: Seq<[u8; 20]>)
    requires
        pieces_bytes(p) == pieces_bytes(q),
    ensures
        p == q,
{
    lemma_pieces_bytes_len(p);
    lemma_pieces_bytes_len(q);
    assert(p.len() == q.len());
    assert forall|i: int| 0 <= i < p.len() implies p[i] == q[i] by {
        lemma_pieces_bytes_index(p, i);
        lemma_pieces_bytes_index(q, i);
        assert(p[i] =~= q[i]);
    }
    assert(p =~= q);
}

impl Pieces {
    /// Splits a piece hash string into 20-byte hashes; refused where its length is not
    /// a multiple of 20.
    pub fn from_bytes(v: &[u8]) -> (r: Result<Pieces, PiecesError>)
        ensures
            r is Ok <==> v@.len() % 20 == 0,
            r matches Ok(p) ==> pieces_bytes(p.0@) == v@ && p.0@.len() == v@.len() / 20,
            r matches Err(e) ==> e == PiecesError::NotMultipleOf20,
    {
        let n: usize = v.len();
        if n % 20 != 0 {
            return Err(PiecesError::NotMultipleOf20);
        }
        let mut out: Vec<[u8; 20]> = Vec::new();
        let mut i: usize = 0;
        while i < n / 20
            invariant
                n == v@.len(),
                n % 20 == 0,
                i <= n / 20,
                out@.len() == i,
                pieces_bytes(out@) == v@.subrange(0, 20 * i),
            decreases n / 20 - i,
        {
            let chunk = crate::handshake::array_from::<20>(v, 20 * i);
            let ghost before = out@;
            out.push(chunk);
            proof {
                assert(out@.drop_last() =~= before);
                assert(pieces_bytes(out@) =~= v@.subrange(0, 20 * (i + 1)));
            }
            i = i + 1;
        }
        assert(v@.subrange(0, 20 * i as int) =~= v@);
        Ok(Pieces(out))
    }

    /// The piece hash string: the hashes one after another.
    pub fn to_bytes(&self) -> (r: Vec<u8>)
        ensures
            r@ == pieces_bytes(self.0@),
    {
        let mut r: Vec<u8> = Vec::new();
        let mut i: usize = 0;
        while i < self.0.len()
            invariant
                i <= self.0@.len(),
                r@ == pieces_bytes(self.0@.take(i as int)),
            decreases self.0@.len() - i,
        {
            crate::handshake::push_all(&mut r, self.0[i].as_slice());
            assert(self.0@.take(i + 1).drop_last() =~= self.0@.take(i as int));
            i = i + 1;
        }
        assert(self.0@.take(i as int) =~= self.0@);
        r
    }
}

/// The info hash of a torrent: the SHA-1 digest of its bencoded info dictionary.
pub fn info_hash(bencoded_info: &[u8]) -> (r: [u8; 20])
    ensures
        r@ == sha1_hash(bencoded_info@),
{
    sha1_digest(bencoded_info)
}

} // verus!
