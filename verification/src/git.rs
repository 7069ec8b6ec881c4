//! Git's loose object format: a zlib stream holding `<kind> <size>\0<content>`; the
//! entries of a tree object; and how `ls-tree` prints an entry.
use vstd::prelude::*;
use vstd::utf8::{decode_utf8, encode_utf8, valid_utf8};
use vstd::string::StringSliceAdditionalSpecFns;
use crate::bencode::{chars_of, first_index_of, is_first_index};
use crate::digits::{ascii_bytes, decimal_digits, lemma_decimal_digits, lemma_parse_decimal, parse_usize, parse_usize_at, push_decimal};
use crate::primitives::{after_first_nul, hex_encode, hex_lower, sha1_digest, sha1_hash, through_first_nul, utf8_str, zlib_compress, zlib_content, zlib_deflate, zlib_header, zlib_read_content, zlib_read_header};

verus! {

broadcast use vstd::utf8::group_utf8_lib;

/// The kind of a git object.
#[derive(Debug, PartialEq, Eq, Structural, Clone, Copy)]
pub enum Kind {
    Blob,
    Commit,
    Tree,
}

/// The name of a kind as it is written in a header and printed.
pub open spec fn kind_chars(k: Kind) -> Seq<char> {
    match k {
        Kind::Blob => seq!['b', 'l', 'o', 'b'],
        Kind::Commit => seq!['c', 'o', 'm', 'm', 'i', 't'],
        Kind::Tree => seq!['t', 'r', 'e', 'e'],
    }
}

/// The kind that `s` names, if any.
pub open spec fn kind_named(s: Seq<char>) -> Option<Kind> {
    if s == kind_chars(Kind::Blob) {
        Some(Kind::Blob)
    } else if s == kind_chars(Kind::Commit) {
        Some(Kind::Commit)
    } else if s == kind_chars(Kind::Tree) {
        Some(Kind::Tree)
    } else {
        None
    }
}

/// The kinds are named `blob`, `commit` and `tree`, and each name reads back as its
/// kind.
pub proof fn lemma_kind_names(k: Kind)
    ensures
        kind_chars(Kind::Blob) == "blob"@,
        kind_chars(Kind::Commit) == "commit"@,
        kind_chars(Kind::Tree) == "tree"@,
        kind_named(kind_chars(k)) == Some(k),
{
    reveal_strlit("blob");
    reveal_strlit("commit");
    reveal_strlit("tree");
    assert(kind_chars(Kind::Blob) =~= "blob"@);
    assert(kind_chars(Kind::Commit) =~= "commit"@);
    assert(kind_chars(Kind::Tree) =~= "tree"@);
    assert(kind_chars(Kind::Blob) != kind_chars(Kind::Commit));
    assert(kind_chars(Kind::Blob)[0] != kind_chars(Kind::Tree)[0]);
    assert(kind_chars(Kind::Commit)[0] != kind_chars(Kind::Tree)[0]);
}

impl Kind {
    /// The kind's name: `blob`, `commit` or `tree`.
    pub fn name(&self) -> (r: &'static str)
        ensures
            r@ == kind_chars(*self),
    {
        match self {
            Kind::Blob => {
                proof { reveal_strlit("blob"); }
                "blob"
            },
            Kind::Commit => {
                proof { reveal_strlit("commit"); }
                "commit"
            },
            Kind::Tree => {
                proof { reveal_strlit("tree"); }
                "tree"
            },
        }
    }
}

/// An object read from the store: its kind, the size its header gives, and its
/// content, of which at most that many bytes are read. Where decompression fails while
/// the content is read, `read_error` is set and the content holds the bytes read before.
pub struct Object {
    pub kind: Kind,
    pub expected_size: u64,
    pub content: Vec<u8>,
    pub read_error: bool,
}

impl Object {
    /// Whether the content has as many bytes as the header gives; it has fewer where
    /// the stored object is shorter than its header says.
    pub fn has_expected_size(&self) -> (r: bool)
        ensures
            r == (self.content@.len() == self.expected_size),
    {
        self.content.len() as u64 == self.expected_size
    }
}

/// Why an object cannot be read.
#[derive(Debug, PartialEq, Eq)]
pub enum ObjectError {
    /// The data is not a zlib stream.
    Decompress,
    /// The header has no terminating NUL byte.
    NotNulTerminated,
    /// The header is not UTF-8.
    NotUtf8,
    /// The header has no space between kind and size.
    MissingSize,
    /// The size does not parse as a `usize`.
    BadSize,
    /// The kind is none of `blob`, `commit`, `tree`.
    UnknownKind(String),
}

/// Why an object cannot be read, as a mathematical value.
pub enum ObjectFault {
    Decompress,
    NotNulTerminated,
    NotUtf8,
    MissingSize,
    BadSize,
    UnknownKind(Seq<char>),
}

/// Reads a header as it comes from reading up to the first NUL: it must end in its only
/// NUL and be UTF-8 text `<kind> <size>`. Gives the kind and the size.
pub open spec fn parse_header(h: Seq<u8>) -> Result<(Kind, usize), ObjectFault> {
    if !(first_index_of(h, 0u8) == Some(h.len() - 1)) {
        Err(ObjectFault::NotNulTerminated)
    } else {
        let header = h.subrange(0, h.len() - 1);
        if !valid_utf8(header) {
            Err(ObjectFault::NotUtf8)
        } else {
            let text = decode_utf8(header);
            match first_index_of(text, ' ') {
                None => Err(ObjectFault::MissingSize),
                Some(sp) => match parse_usize(text.skip(sp + 1)) {
                    None => Err(ObjectFault::BadSize),
                    Some(size) => match kind_named(text.subrange(0, sp)) {
                        None => Err(ObjectFault::UnknownKind(text.subrange(0, sp))),
                        Some(k) => Ok((k, size)),
                    },
                },
            }
        }
    }
}

/// Reads a stored object: the header up to its NUL, then at most as many bytes of
/// content as the header gives. Gives the kind, the size, the content and whether
/// decompression failed while the content was read.
pub open spec fn parse_stored_object(compressed: Seq<u8>) -> Result<(Kind, usize, Seq<u8>, bool), ObjectFault> {
    match zlib_read_header(compressed) {
        None => Err(ObjectFault::Decompress),
        Some(h) => match parse_header(h) {
            Err(e) => Err(e),
            Ok((k, size)) => {
                let (content, failed) = zlib_read_content(compressed, size as nat);
                Ok((k, size, content, failed))
            },
        },
    }
}

/// Whether `r` is the outcome `o` of reading an object.
pub open spec fn object_outcome(r: Result<Object, ObjectError>, o: Result<(Kind, usize, Seq<u8>, bool), ObjectFault>) -> bool {
    match o {
        Ok((k, size, content, failed)) => r matches Ok(obj) && obj.kind == k && obj.expected_size == size
            && obj.content@ == content && obj.read_error == failed,
        Err(ObjectFault::Decompress) => r matches Err(ObjectError::Decompress),
        Err(ObjectFault::NotNulTerminated) => r matches Err(ObjectError::NotNulTerminated),
        Err(ObjectFault::NotUtf8) => r matches Err(ObjectError::NotUtf8),
        Err(ObjectFault::MissingSize) => r matches Err(ObjectError::MissingSize),
        Err(ObjectFault::BadSize) => r matches Err(ObjectError::BadSize),
        Err(ObjectFault::UnknownKind(name)) => r matches Err(ObjectError::UnknownKind(n)) && n@ == name,
    }
}

/// The index of the first `b` in `s` at or after `from`.
pub fn find_byte(s: &[u8], from: usize, b: u8) -> (r: Option<usize>)
    requires
        from <= s@.len(),
    ensures
        match r {
            Some(k) => from <= k < s@.len() && first_index_of(s@.skip(from as int), b) == Some(
                k - from,
            ),
            None => first_index_of(s@.skip(from as int), b) is None,
        },
{
    let ghost t = s@.skip(from as int);
    let n: usize = s.len();
    let mut i: usize = from;
    while i < n
        invariant
            n == s@.len(),
            from <= i <= n,
            t == s@.skip(from as int),
            forall|j: int| from <= j < i ==> s@[j] != b,
        decreases n - i,
    {
        if s[i] == b {
            let ghost k: int = (i - from) as int;
            assert(is_first_index(t, b, k));
            assert forall|k2: int| is_first_index(t, b, k2) implies k2 == k by {
                if k2 < k {
                    assert(s@[from + k2] != b);
                } else if k2 > k {
                    assert(t[k] == b);
                }
            }
            return Some(i);
        }
        i = i + 1;
    }
    assert forall|k: int| !is_first_index(t, b, k) by {
        if 0 <= k < t.len() {
            assert(s@[from + k] != b);
        }
    }
    None
}

/// The bytes `s[from..to]`.
pub fn copy_range(s: &[u8], from: usize, to: usize) -> (r: Vec<u8>)
    requires
        from <= to <= s@.len(),
    ensures
        r@ == s@.subrange(from as int, to as int),
{
    let mut r: Vec<u8> = Vec::with_capacity(to - from);
    let mut i: usize = from;
    while i < to
        invariant
            from <= i <= to <= s@.len(),
            r@ == s@.subrange(from as int, i as int),
        decreases to - i,
    {
        r.push(s[i]);
        i = i + 1;
        assert(r@ =~= s@.subrange(from as int, i as int));
    }
    r
}

/// The kind named by the characters `s[0..to]`, if any.
fn kind_named_at(s: &Vec<char>, to: usize) -> (r: Option<Kind>)
    requires
        to <= s@.len(),
    ensures
        r == kind_named(s@.subrange(0, to as int)),
{
    let ghost t = s@.subrange(0, to as int);
    assert(t.len() == to);
    assert(forall|i: int| 0 <= i < to ==> t[i] == s@[i]);
    assert(kind_chars(Kind::Blob).len() == 4 && kind_chars(Kind::Commit).len() == 6 && kind_chars(Kind::Tree).len() == 4);
    if to == 4 && s[0] == 'b' && s[1] == 'l' && s[2] == 'o' && s[3] == 'b' {
        assert(t =~= kind_chars(Kind::Blob));
        Some(Kind::Blob)
    } else if to == 6 && s[0] == 'c' && s[1] == 'o' && s[2] == 'm' && s[3] == 'm' && s[4] == 'i' && s[5] == 't' {
        assert(t =~= kind_chars(Kind::Commit));
        assert(t != kind_chars(Kind::Blob));
        Some(Kind::Commit)
    } else if to == 4 && s[0] == 't' && s[1] == 'r' && s[2] == 'e' && s[3] == 'e' {
        assert(t =~= kind_chars(Kind::Tree));
        assert(t[0] != kind_chars(Kind::Blob)[0]);
        Some(Kind::Tree)
    } else {
        proof {
            if t == kind_chars(Kind::Blob) {
                assert(t[0] == 'b' && t[1] == 'l' && t[2] == 'o' && t[3] == 'b');
            }
            if t == kind_chars(Kind::Commit) {
                assert(t[0] == 'c' && t[1] == 'o' && t[2] == 'm' && t[3] == 'm' && t[4] == 'i' && t[5] == 't');
            }
            if t == kind_chars(Kind::Tree) {
                assert(t[0] == 't' && t[1] == 'r' && t[2] == 'e' && t[3] == 'e');
            }
        }
        None
    }
}

/// Reads a header as it comes from reading up to the first NUL: it must end in its only
/// NUL and be UTF-8 text `<kind> <size>`.
pub fn parse_header_bytes(h: &[u8]) -> (r: Result<(Kind, usize), ObjectError>)
    ensures
        match parse_header(h@) {
            Ok((k, size)) => r == Ok::<(Kind, usize), ObjectError>((k, size)),
            Err(ObjectFault::UnknownKind(name)) => r matches Err(ObjectError::UnknownKind(n)) && n@ == name,
            Err(ObjectFault::NotNulTerminated) => r matches Err(ObjectError::NotNulTerminated),
            Err(ObjectFault::NotUtf8) => r matches Err(ObjectError::NotUtf8),
            Err(ObjectFault::MissingSize) => r matches Err(ObjectError::MissingSize),
            Err(ObjectFault::BadSize) => r matches Err(ObjectError::BadSize),
            Err(ObjectFault::Decompress) => false,
        },
{
    let n: usize = h.len();
    assert(h@.skip(0) =~= h@);
    let nul = match find_byte(h, 0, 0) {
        None => {
            return Err(ObjectError::NotNulTerminated);
        },
        Some(k) => k,
    };
    if nul != n - 1 {
        return Err(ObjectError::NotNulTerminated);
    }
    let header = copy_range(h, 0, nul);
    let text = match utf8_str(header.as_slice()) {
        None => {
            return Err(ObjectError::NotUtf8);
        },
        Some(t) => t,
    };
    assert(text@ == decode_utf8(header@)) by {
        vstd::utf8::encode_utf8_decode_utf8(text@);
    }
    let chars = chars_of(text);
    let sp = match crate::bencode::find_char_in(&chars, 0, ' ') {
        None => {
            assert(chars@.skip(0) =~= chars@);
            return Err(ObjectError::MissingSize);
        },
        Some(k) => k,
    };
    assert(chars@.skip(0) =~= chars@);
    assert(chars@.subrange(sp + 1, chars@.len() as int) =~= chars@.skip(sp + 1));
    let size = match parse_usize_at(&chars, sp + 1, chars.len()) {
        None => {
            return Err(ObjectError::BadSize);
        },
        Some(n) => n,
    };
    let kind = match kind_named_at(&chars, sp) {
        None => {
            let name = text.substring_char(0, sp).to_owned();
            return Err(ObjectError::UnknownKind(name));
        },
        Some(k) => k,
    };
    Ok((kind, size))
}

/// Reads a stored object: reads the zlib stream up to the header's NUL and checks the
/// header, then reads at most as many bytes of content as the header gives.
pub fn parse_object(compressed: &[u8]) -> (r: Result<Object, ObjectError>)
    ensures
        object_outcome(r, parse_stored_object(compressed@)),
{
    let h = match zlib_header(compressed) {
        None => {
            return Err(ObjectError::Decompress);
        },
        Some(h) => h,
    };
    let (kind, size) = match parse_header_bytes(h.as_slice()) {
        Err(e) => {
            return Err(e);
        },
        Ok(ks) => ks,
    };
    let (content, read_error) = zlib_content(compressed, size as u64);
    Ok(Object { kind, expected_size: size as u64, content, read_error })
}

/// The header of a blob of `size` bytes: `blob <size>` and a NUL.
pub open spec fn blob_header(size: u64) -> Seq<char> {
    seq!['b', 'l', 'o', 'b', ' '] + decimal_digits(size as nat) + seq!['\0']
}

/// The bytes that a blob object stores before compression: the header, then the content.
pub open spec fn blob_stream(size: u64, content: Seq<u8>) -> Seq<u8> {
    encode_utf8(blob_header(size)) + content
}

/// A blob object ready for the store: its name, the lower-case hexadecimal SHA-1 of the
/// uncompressed object, and the zlib stream that is written to the store.
pub struct BlobObject {
    pub hash: String,
    pub compressed: Vec<u8>,
}

proof fn lemma_blob_header_ascii(size: u64)
    ensures
        vstd::utf8::is_ascii_chars(blob_header(size)),
        encode_utf8(blob_header(size)) == ascii_bytes(blob_header(size)),
{
    lemma_decimal_digits(size as nat);
    let h = blob_header(size);
    let d = decimal_digits(size as nat);
    assert forall|i: int| 0 <= i < h.len() implies '\0' <= #[trigger] h[i] <= '\u{7f}' by {
        if 5 <= i < 5 + d.len() {
            assert(h[i] == d[i - 5]);
        }
    }
    vstd::utf8::is_ascii_chars_encode_utf8(h);
    assert(encode_utf8(h) =~= ascii_bytes(h));
}

/// The header of a stored blob reads back as a blob of its size, and its content is
/// what follows the header's NUL.
pub proof fn lemma_blob_roundtrip(size: u64, content: Seq<u8>)
    requires
        size <= usize::MAX,
    ensures
        parse_header(through_first_nul(blob_stream(size, content))) == Ok::<(Kind, usize), ObjectFault>(
            (Kind::Blob, size as usize),
        ),
        after_first_nul(blob_stream(size, content)) == content,
{
    lemma_blob_header_ascii(size);
    lemma_decimal_digits(size as nat);
    lemma_parse_decimal(size as nat);
    let h = blob_header(size);
    let d = decimal_digits(size as nat);
    let hb = encode_utf8(h);
    let stream = blob_stream(size, content);
    let nul = h.len() - 1;
    assert(hb.len() == h.len());
    assert(stream[nul] == 0u8);
    assert forall|j: int| 0 <= j < nul implies stream[j] != 0u8 by {
        assert(stream[j] == h[j] as u8);
        if 5 <= j {
            assert(h[j] == d[j - 5]);
        }
    }
    assert(is_first_index(stream, 0u8, nul));
    assert forall|k: int| is_first_index(stream, 0u8, k) implies k == nul by {
        if k > nul {
            assert(stream[nul] == 0u8);
        }
    }
    assert(first_index_of(stream, 0u8) == Some(nul));
    let hd = stream.take(nul + 1);
    assert(through_first_nul(stream) == hd);
    assert(is_first_index(hd, 0u8, nul));
    assert forall|k: int| is_first_index(hd, 0u8, k) implies k == nul by {
        if k > nul {
            assert(hd[nul] == 0u8);
        }
    }
    assert(first_index_of(hd, 0u8) == Some(nul));
    let text = seq!['b', 'l', 'o', 'b', ' '] + d;
    let header = hd.subrange(0, nul);
    assert(header =~= ascii_bytes(text));
    assert(vstd::utf8::is_ascii_chars(text)) by {
        assert forall|i: int| 0 <= i < text.len() implies '\0' <= #[trigger] text[i] <= '\u{7f}' by {
            assert(text[i] == h[i]);
        }
    }
    vstd::utf8::is_ascii_chars_encode_utf8(text);
    assert(encode_utf8(text) =~= header);
    assert(decode_utf8(header) == text);
    assert(is_first_index(text, ' ', 4));
    assert forall|k: int| is_first_index(text, ' ', k) implies k == 4 by {
        if k > 4 {
            assert(text[4] == ' ');
        }
    }
    assert(first_index_of(text, ' ') == Some(4int));
    assert(text.skip(5) =~= d);
    assert(text.subrange(0, 4) =~= kind_chars(Kind::Blob));
    assert(stream.skip(nul + 1) =~= content);
}

/// Builds the blob object for `content`, whose header gives `size`: the stream
/// `blob <size>\0<content>`, its SHA-1 in hexadecimal and its zlib compression.
pub fn encode_blob(size: u64, content: &[u8]) -> (r: BlobObject)
    requires
        content@.len() + 32 <= usize::MAX,
    ensures
        r.hash@ == hex_lower(sha1_hash(blob_stream(size, content@))),
        r.compressed@ == zlib_deflate(blob_stream(size, content@)),
        size == content@.len() ==> parse_stored_object(r.compressed@) == Ok::<(Kind, usize, Seq<u8>, bool), ObjectFault>(
            (Kind::Blob, size as usize, content@, false),
        ),
{
    let mut stream: Vec<u8> = Vec::new();
    stream.push(98);
    stream.push(108);
    stream.push(111);
    stream.push(98);
    stream.push(32);
    push_decimal(&mut stream, size);
    stream.push(0);
    proof {
        lemma_blob_header_ascii(size);
        assert(stream@ =~= ascii_bytes(blob_header(size)));
    }
    crate::handshake::push_all(&mut stream, content);
    assert(stream@ =~= blob_stream(size, content@));
    let digest = sha1_digest(stream.as_slice());
    let hash = hex_encode(&digest);
    let compressed = zlib_compress(stream.as_slice());
    proof {
        if size == content@.len() {
            lemma_blob_roundtrip(size, content@);
            assert(content@.take(size as int) =~= content@);
        }
    }
    BlobObject { hash, compressed }
}


/// One entry of a tree object: `<mode> <name>\0` and the 20-byte hash of its object.
pub struct TreeEntry {
    pub mode: Vec<u8>,
    pub name: Vec<u8>,
    pub hash: [u8; 20],
}

/// Why a tree entry cannot be read.
#[derive(Debug, PartialEq, Eq)]
pub enum TreeError {
    /// Fewer than 20 bytes of hash follow the entry's NUL, or there is no NUL.
    TruncatedHash,
    /// The entry has no space between mode and name.
    MissingName,
}

/// Reads the tree entry that starts at `pos` of `content`: its mode, name and hash and
/// where the next entry starts; `None` at the end of the content.
pub open spec fn tree_entry_at(content: Seq<u8>, pos: int) -> Result<
    Option<(Seq<u8>, Seq<u8>, Seq<u8>, int)>,
    TreeError,
> {
    if pos >= content.len() {
        Ok(None)
    } else {
        let rest = content.skip(pos);
        match first_index_of(rest, 0u8) {
            None => Err(TreeError::TruncatedHash),
            Some(k) => if pos + k + 21 > content.len() {
                Err(TreeError::TruncatedHash)
            } else {
                let entry = rest.take(k);
                match first_index_of(entry, 32u8) {
                    None => Err(TreeError::MissingName),
                    Some(sp) => Ok(
                        Some(
                            (
                                entry.take(sp),
                                entry.skip(sp + 1),
                                content.subrange(pos + k + 1, pos + k + 21),
                                pos + k + 21,
                            ),
                        ),
                    ),
                }
            },
        }
    }
}

/// Reads the tree entry that starts at `pos` of `content`, and where the next one
/// starts; `None` at the end of the content.
pub fn next_tree_entry(content: &[u8], pos: usize) -> (r: Result<Option<(TreeEntry, usize)>, TreeError>)
    requires
        pos <= content@.len(),
    ensures
        match tree_entry_at(content@, pos as int) {
            Ok(None) => r matches Ok(None),
            Ok(Some((mode, name, hash, next))) => r matches Ok(Some((e, n))) && e.mode@ == mode
                && e.name@ == name && e.hash@ == hash && n == next,
            Err(err) => r == Err::<Option<(TreeEntry, usize)>, TreeError>(err),
        },
{
    let len: usize = content.len();
    if pos >= len {
        return Ok(None);
    }
    let ghost rest = content@.skip(pos as int);
    let k = match find_byte(content, pos, 0) {
        None => {
            return Err(TreeError::TruncatedHash);
        },
        Some(k) => k,
    };
    if len - k < 21 {
        return Err(TreeError::TruncatedHash);
    }
    let entry = copy_range(content, pos, k);
    assert(entry@ =~= rest.take(k - pos));
    let sp = match find_byte(entry.as_slice(), 0, 32) {
        None => {
            assert(entry@.skip(0) =~= entry@);
            return Err(TreeError::MissingName);
        },
        Some(sp) => sp,
    };
    assert(entry@.skip(0) =~= entry@);
    let mode = copy_range(entry.as_slice(), 0, sp);
    let name = copy_range(entry.as_slice(), sp + 1, entry.len());
    let hash = crate::handshake::array_from::<20>(content, k + 1);
    assert(mode@ =~= entry@.take(sp as int));
    assert(name@ =~= entry@.skip(sp + 1));
    Ok(Some((TreeEntry { mode, name, hash }, k + 21)))
}

/// A tree entry read at `pos` is the bytes from `pos` up to where the next entry starts,
/// laid out as the mode, a space, the name, a NUL and the 20 hash bytes in the order
/// they are stored; the mode holds no space, and neither mode nor name holds a NUL.
pub proof fn lemma_tree_entry_layout(content: Seq<u8>, pos: int)
    requires
        0 <= pos,
    ensures
        tree_entry_at(content, pos) matches Ok(Some((mode, name, hash, next))) ==> {
            &&& pos < next <= content.len()
            &&& hash.len() == 20
            &&& content[next - 21] == 0u8
            &&& hash == content.subrange(next - 20, next)
            &&& content.subrange(pos, next) == mode + seq![32u8] + name + seq![0u8] + hash
            &&& !mode.contains(32u8)
            &&& !mode.contains(0u8)
            &&& !name.contains(0u8)
        },
{
    if pos < content.len() {
        let rest = content.skip(pos);
        if let Some(k) = first_index_of(rest, 0u8) {
            assert(is_first_index(rest, 0u8, k));
            if pos + k + 21 <= content.len() {
                let entry = rest.take(k);
                if let Some(sp) = first_index_of(entry, 32u8) {
                    assert(is_first_index(entry, 32u8, sp));
                    let mode = entry.take(sp);
                    let name = entry.skip(sp + 1);
                    let hash = content.subrange(pos + k + 1, pos + k + 21);
                    assert(content.subrange(pos, pos + k + 21) =~= mode + seq![32u8] + name + seq![0u8] + hash);
                    assert(!mode.contains(32u8));
                    assert(!mode.contains(0u8));
                    assert(!name.contains(0u8)) by {
                        if name.contains(0u8) {
                            let j = choose|j: int| 0 <= j < name.len() && name[j] == 0u8;
                            assert(rest[sp + 1 + j] == 0u8);
                        }
                    }
                }
            }
        }
    }
}

/// `s` padded on the left with `0` to at least six characters, as `{:0>6}` formats it.
pub open spec fn pad_mode(s: Seq<char>) -> Seq<char> {
    if s.len() >= 6 {
        s
    } else {
        Seq::new((6 - s.len()) as nat, |i: int| '0') + s
    }
}

/// A padded mode is at least six characters long, ends with the mode, and has only `0`
/// in front of it.
pub proof fn lemma_pad_mode(s: Seq<char>)
    ensures
        pad_mode(s).len() == if s.len() >= 6 { s.len() } else { 6 },
        pad_mode(s).skip(pad_mode(s).len() - s.len()) == s,
        forall|i: int| 0 <= i < pad_mode(s).len() - s.len() ==> #[trigger] pad_mode(s)[i] == '0',
{
    assert(pad_mode(s).skip(pad_mode(s).len() - s.len()) =~= s);
}

/// The line that `ls-tree` prints for an entry:
/// `<mode padded to 6> <kind> <hash>    <name>` and a newline.
pub open spec fn tree_line(mode: Seq<char>, kind: Kind, hash: Seq<char>, name: Seq<u8>) -> Seq<u8> {
    encode_utf8(pad_mode(mode) + seq![' '] + kind_chars(kind) + seq![' '] + hash + seq![' ', ' ', ' ', ' '])
        + name + seq![10u8]
}

/// The bytes of one space-like separator.
proof fn lemma_encode_spaces(n: nat)
    ensures
        encode_utf8(Seq::new(n, |i: int| ' ')) == Seq::new(n, |i: int| 32u8),
{
    let c = Seq::new(n, |i: int| ' ');
    assert(vstd::utf8::is_ascii_chars(c));
    vstd::utf8::is_ascii_chars_encode_utf8(c);
    assert(encode_utf8(c) =~= Seq::new(n, |i: int| 32u8));
}

/// An `ls-tree` line is the padded mode, a space, the kind's name, a space, the hash,
/// four spaces, the name and a newline.
pub proof fn lemma_tree_line_layout(mode: Seq<char>, kind: Kind, hash: Seq<char>, name: Seq<u8>)
    ensures
        tree_line(mode, kind, hash, name) == encode_utf8(pad_mode(mode)) + seq![32u8] + encode_utf8(kind_chars(kind))
            + seq![32u8] + encode_utf8(hash) + seq![32u8, 32u8, 32u8, 32u8] + name + seq![10u8],
{
    let sp = seq![' '];
    let four = seq![' ', ' ', ' ', ' '];
    lemma_encode_spaces(1);
    lemma_encode_spaces(4);
    assert(Seq::new(1, |i: int| ' ') =~= sp);
    assert(Seq::new(4, |i: int| ' ') =~= four);
    assert(Seq::new(1, |i: int| 32u8) =~= seq![32u8]);
    assert(Seq::new(4, |i: int| 32u8) =~= seq![32u8, 32u8, 32u8, 32u8]);
    let pm = pad_mode(mode);
    let kc = kind_chars(kind);
    lemma_encode_utf8_concat(pm, sp);
    lemma_encode_utf8_concat(pm + sp, kc);
    lemma_encode_utf8_concat(pm + sp + kc, sp);
    lemma_encode_utf8_concat(pm + sp + kc + sp, hash);
    lemma_encode_utf8_concat(pm + sp + kc + sp + hash, four);
}

/// The UTF-8 encoding of a concatenation is the concatenation of the encodings.
pub proof fn lemma_encode_utf8_concat(a: Seq<char>, b: Seq<char>)
    ensures
        encode_utf8(a + b) == encode_utf8(a) + encode_utf8(b),
    decreases a.len(),
{
    if a.len() == 0 {
        assert(a + b =~= b);
        assert(encode_utf8(a) =~= Seq::<u8>::empty());
        assert(encode_utf8(a) + encode_utf8(b) =~= encode_utf8(b));
    } else {
        lemma_encode_utf8_concat(a.drop_first(), b);
        assert((a + b).drop_first() =~= a.drop_first() + b);
        assert((a + b)[0] == a[0]);
        assert(encode_utf8(a + b) =~= encode_utf8(a) + encode_utf8(b));
    }
}

fn push_str(out: &mut Vec<u8>, s: &str)
    ensures
        final(out)@ == old(out)@ + encode_utf8(s@),
{
    let b = s.as_bytes();
    crate::handshake::push_all(out, b);
}

/// The line that `ls-tree` prints for an entry of the given mode, kind, hexadecimal hash
/// and name; `None` where the mode is not UTF-8.
pub fn tree_entry_line(mode: &[u8], kind: Kind, hash: &str, name: &[u8]) -> (r: Option<Vec<u8>>)
    ensures
        valid_utf8(mode@) ==> (r matches Some(line) && line@ == tree_line(decode_utf8(mode@), kind, hash@, name@)),
        !valid_utf8(mode@) ==> r is None,
{
    let text = match utf8_str(mode) {
        None => {
            return None;
        },
        Some(t) => t,
    };
    assert(text@ == decode_utf8(mode@)) by {
        vstd::utf8::encode_utf8_decode_utf8(text@);
    }
    let n = text.unicode_len();
    let mut out: Vec<u8> = Vec::new();
    let mut i: usize = n;
    while i < 6
        invariant
            n <= i,
            i <= 6 || i == n,
            out@ == ascii_bytes(Seq::new((i - n) as nat, |j: int| '0')),
        decreases 6 - i,
    {
        out.push(48);
        i = i + 1;
        assert(out@ =~= ascii_bytes(Seq::new((i - n) as nat, |j: int| '0')));
    }
    let ghost zeros = Seq::new((if n >= 6 { 0 } else { 6 - n }) as nat, |j: int| '0');
    assert(out@ =~= ascii_bytes(zeros));
    proof {
        assert(vstd::utf8::is_ascii_chars(zeros));
        vstd::utf8::is_ascii_chars_encode_utf8(zeros);
        assert(encode_utf8(zeros) =~= out@);
        if n >= 6 {
            assert(zeros + text@ =~= text@);
        }
        assert(pad_mode(text@) == zeros + text@);
    }
    push_str(&mut out, text);
    push_str(&mut out, " ");
    push_str(&mut out, kind.name());
    push_str(&mut out, " ");
    push_str(&mut out, hash);
    push_str(&mut out, "    ");
    crate::handshake::push_all(&mut out, name);
    out.push(10);
    proof {
        reveal_strlit(" ");
        reveal_strlit("    ");
        let sp = seq![' '];
        let four = seq![' ', ' ', ' ', ' '];
        assert(" "@ =~= sp);
        assert("    "@ =~= four);
        lemma_encode_utf8_concat(zeros, text@);
        lemma_encode_utf8_concat(zeros + text@, sp);
        lemma_encode_utf8_concat(zeros + text@ + sp, kind_chars(kind));
        lemma_encode_utf8_concat(zeros + text@ + sp + kind_chars(kind), sp);
        lemma_encode_utf8_concat(zeros + text@ + sp + kind_chars(kind) + sp, hash@);
        lemma_encode_utf8_concat(zeros + text@ + sp + kind_chars(kind) + sp + hash@, four);
        assert(out@ =~= tree_line(text@, kind, hash@, name@));
    }
    Some(out)
}

/// Where the store keeps the object `object_hash`: `../.git/objects/<first two>/<rest>`.
pub fn object_path(object_hash: &str) -> (r: String)
    requires
        vstd::utf8::is_char_boundary(object_hash.spec_bytes(), 2),
    ensures
        encode_utf8(r@) == encode_utf8("../.git/objects/"@) + object_hash.spec_bytes().subrange(0, 2)
            + encode_utf8("/"@) + object_hash.spec_bytes().subrange(2, object_hash.spec_bytes().len() as int),
{
    let (dir, file) = object_hash.split_at(2);
    let mut r = "../.git/objects/".to_owned();
    r.append(dir);
    r.append("/");
    r.append(file);
    proof {
        lemma_encode_utf8_concat("../.git/objects/"@, dir@);
        lemma_encode_utf8_concat("../.git/objects/"@ + dir@, "/"@);
        lemma_encode_utf8_concat("../.git/objects/"@ + dir@ + "/"@, file@);
    }
    r
}

} // verus!
