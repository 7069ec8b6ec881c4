use bittorrent::git::{
    encode_blob, next_tree_entry, object_path, parse_header_bytes, parse_object, tree_entry_line, Kind, ObjectError,
    TreeError,
};
use flate2::write::ZlibEncoder;
use std::io::Write;
use sha1::Digest;

fn sha1(data: &[u8]) -> [u8; 20] {
    sha1::Sha1::digest(data).into()
}

fn zlib(data: &[u8]) -> Vec<u8> {
    let mut e = ZlibEncoder::new(Vec::new(), flate2::Compression::default());
    e.write_all(data).unwrap();
    e.finish().unwrap()
}

#[test]
fn blob_hash_matches_git() {
    // `printf 'hello world\n' | git hash-object --stdin`
    let b = encode_blob(12, b"hello world\n");
    assert_eq!(b.hash, "3b18e512dba79e4c8300dd08aeb37f8e728b8dad");
    let o = parse_object(&b.compressed).unwrap();
    assert_eq!(o.kind, Kind::Blob);
    assert_eq!(o.expected_size, 12);
    assert_eq!(o.content, b"hello world\n");
}

#[test]
fn empty_blob() {
    let b = encode_blob(0, b"");
    assert_eq!(b.hash, "e69de29bb2d1d6434b8b29ae775ad8c2e48c5391");
    assert_eq!(parse_object(&b.compressed).unwrap().content, b"");
}

#[test]
fn blob_header_holds_the_given_size() {
    let b = encode_blob(1234567, b"xy");
    let stream = b"blob 1234567\0xy".to_vec();
    assert_eq!(bittorrent::primitives::encode_hex(&sha1(&stream)), b.hash);
    let o = parse_object(&b.compressed).unwrap();
    assert_eq!(o.expected_size, 1234567);
    assert_eq!(o.content, b"xy");
}

#[test]
fn content_is_cut_to_the_size() {
    let o = parse_object(&zlib(b"commit 3\0abcdef")).unwrap();
    assert_eq!(o.kind, Kind::Commit);
    assert_eq!(o.content, b"abc");
    assert!(!o.read_error);
    let o = parse_object(&zlib(b"tree +2\0abcdef")).unwrap();
    assert_eq!(o.kind, Kind::Tree);
    assert_eq!(o.expected_size, 2);
    assert_eq!(o.content, b"ab");
}

#[test]
fn header_errors() {
    assert_eq!(parse_object(b"not zlib").err(), Some(ObjectError::Decompress));
    assert_eq!(parse_object(&zlib(b"blob 3")).err(), Some(ObjectError::NotNulTerminated));
    assert_eq!(parse_object(&zlib(b"blob \xff3\0abc")).err(), Some(ObjectError::NotUtf8));
    assert_eq!(parse_object(&zlib(b"blob\0abc")).err(), Some(ObjectError::MissingSize));
    assert_eq!(parse_object(&zlib(b"blob x\0abc")).err(), Some(ObjectError::BadSize));
    assert_eq!(parse_object(&zlib(b"blob \0abc")).err(), Some(ObjectError::BadSize));
    assert_eq!(parse_object(&zlib(b"tag 3\0abc")).err(), Some(ObjectError::UnknownKind("tag".to_string())));
    assert_eq!(parse_object(&zlib(b"tag x\0abc")).err(), Some(ObjectError::BadSize));
    assert_eq!(parse_header_bytes(b"blob 3\0\0").err(), Some(ObjectError::NotNulTerminated));
    assert_eq!(parse_header_bytes(b"blob 3\0"), Ok((Kind::Blob, 3)));
    assert_eq!(parse_object(&zlib(b"blob 2\0hi")).unwrap().content, b"hi");
}

#[test]
fn tree_entries() {
    let mut t = b"100644 a file.txt\0".to_vec();
    t.extend_from_slice(&[1u8; 20]);
    t.extend_from_slice(b"40000 dir\0");
    t.extend_from_slice(&[2u8; 20]);
    let (e, next) = next_tree_entry(&t, 0).unwrap().unwrap();
    assert_eq!(e.mode, b"100644");
    assert_eq!(e.name, b"a file.txt");
    assert_eq!(e.hash, [1u8; 20]);
    let (e2, next2) = next_tree_entry(&t, next).unwrap().unwrap();
    assert_eq!(e2.mode, b"40000");
    assert_eq!(e2.name, b"dir");
    assert_eq!(e2.hash, [2u8; 20]);
    assert_eq!(next2, t.len());
    assert!(next_tree_entry(&t, next2).unwrap().is_none());
}

#[test]
fn tree_entry_errors() {
    assert_eq!(next_tree_entry(b"100644 a", 0).err(), Some(TreeError::TruncatedHash));
    assert_eq!(next_tree_entry(b"100644 a\0short", 0).err(), Some(TreeError::TruncatedHash));
    let mut t = b"100644\0".to_vec();
    t.extend_from_slice(&[0u8; 20]);
    assert_eq!(next_tree_entry(&t, 0).err(), Some(TreeError::MissingName));
}

#[test]
fn tree_lines() {
    let line = tree_entry_line(b"40000", Kind::Tree, "abc", b"dir").unwrap();
    assert_eq!(line, b"040000 tree abc    dir\n");
    let line = tree_entry_line(b"100644", Kind::Blob, "ff", b"x").unwrap();
    assert_eq!(line, b"100644 blob ff    x\n");
    let line = tree_entry_line(b"1234567", Kind::Commit, "0", b"y").unwrap();
    assert_eq!(line, b"1234567 commit 0    y\n");
    assert!(tree_entry_line(b"\xff", Kind::Blob, "0", b"y").is_none());
    assert_eq!(Kind::Blob.name(), "blob");
}

#[test]
fn object_paths() {
    assert_eq!(object_path("3b18e512dba79e4c8300dd08aeb37f8e728b8dad"), "../.git/objects/3b/18e512dba79e4c8300dd08aeb37f8e728b8dad");
    assert_eq!(object_path("ab"), "../.git/objects/ab/");
}

#[test]
fn stream_without_its_trailer_still_reads() {
    let mut z = zlib(b"blob 3\0abc");
    z.truncate(z.len() - 4);
    let o = parse_object(&z).unwrap();
    assert_eq!(o.kind, Kind::Blob);
    assert_eq!(o.content, b"abc");
    assert!(!o.read_error);
    assert!(o.has_expected_size());
}

#[test]
fn short_content_is_kept_and_flagged_by_size() {
    let o = parse_object(&zlib(b"blob 10\0abc")).unwrap();
    assert_eq!(o.content, b"abc");
    assert_eq!(o.expected_size, 10);
    assert!(!o.has_expected_size());
}
