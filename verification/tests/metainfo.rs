use bittorrent::download::{Downloaded, DownloadedIter};
use bittorrent::primitives::encode_hex;
use bittorrent::torrent::{info_hash, File, Info, Keys, Pieces, PiecesError, Torrent};
use bittorrent::tracker::{tracker_url, urlencode_bytes, Peers, PeersError, TrackerRequest};

fn torrent(keys: Keys) -> Torrent {
    Torrent {
        announce: "http://tracker.example/announce".to_string(),
        info: Info { name: "x".to_string(), plength: 4, pieces: Pieces(vec![[1u8; 20], [2u8; 20]]), keys },
    }
}

fn file(length: usize, name: &str) -> File {
    File { length, path: vec!["dir".to_string(), name.to_string()] }
}

#[test]
fn single_file_length() {
    assert_eq!(torrent(Keys::SingleFile { length: 92063 }).length(), 92063);
}

#[test]
fn multi_file_length_is_the_sum() {
    let t = torrent(Keys::MultiFile { files: vec![file(3, "a"), file(10, "b"), file(0, "c")] });
    assert_eq!(t.length(), 13);
    assert_eq!(torrent(Keys::MultiFile { files: vec![] }).length(), 0);
}

#[test]
fn pieces_split_and_join() {
    let mut v = vec![0u8; 40];
    v[0] = 1;
    v[39] = 2;
    let p = Pieces::from_bytes(&v).unwrap();
    assert_eq!(p.0.len(), 2);
    assert_eq!(p.0[0][0], 1);
    assert_eq!(p.0[1][19], 2);
    assert_eq!(p.to_bytes(), v);
    assert_eq!(Pieces::from_bytes(&[0u8; 21]).err(), Some(PiecesError::NotMultipleOf20));
    assert_eq!(Pieces::from_bytes(&[]).unwrap().0.len(), 0);
}

#[test]
fn info_hash_is_sha1() {
    // SHA-1 of "abc".
    assert_eq!(encode_hex(&info_hash(b"abc")), "a9993e364706816aba3e25717850c26c9cd0d89d");
}

#[test]
fn hex_is_lower_case() {
    assert_eq!(encode_hex(&[0x00, 0xab, 0x7f]), "00ab7f");
    assert_eq!(encode_hex(&[]), "");
}

#[test]
fn compact_peers() {
    let p = Peers::from_bytes(&[192, 168, 1, 2, 0x1a, 0xe1, 10, 0, 0, 1, 0, 80]).unwrap();
    assert_eq!(p.0.len(), 2);
    assert_eq!(p.0[0].ip, [192, 168, 1, 2]);
    assert_eq!(p.0[0].port, 6881);
    assert_eq!(p.0[1].ip, [10, 0, 0, 1]);
    assert_eq!(p.0[1].port, 80);
    assert_eq!(Peers::from_bytes(&[1, 2, 3]).err(), Some(PeersError::NotMultipleOf6));
}

#[test]
fn tracker_request_defaults() {
    let r = TrackerRequest::new("00112233445566778899".to_string(), 92063);
    assert_eq!(r.peer_id, "00112233445566778899");
    assert_eq!((r.port, r.uploaded, r.downloaded, r.left, r.compact), (6881, 0, 0, 92063, 1));
}

#[test]
fn url_escaping() {
    assert_eq!(urlencode_bytes(&[0xd6, 0x9f, 0x09]), "%d6%9f%09");
    let mut h = [0u8; 20];
    h[0] = 0xff;
    let url = tracker_url("http://t/announce", "port=6881&left=3", &h);
    assert_eq!(
        url,
        format!("http://t/announce?port=6881&left=3&info_hash=%ff{}", "%00".repeat(19))
    );
}

#[test]
fn downloaded_files_take_their_bytes_in_order() {
    let d = Downloaded::new(vec![1, 2, 3, 4, 5, 6], vec![file(2, "a"), file(0, "b"), file(3, "c")]).unwrap();
    let mut it = DownloadedIter::new(&d);
    let a = it.next().unwrap();
    assert_eq!(a.bytes(), &[1, 2]);
    assert_eq!(a.path(), &["dir".to_string(), "a".to_string()]);
    let b = it.next().unwrap();
    assert_eq!(b.bytes(), &[] as &[u8]);
    let c = it.next().unwrap();
    assert_eq!(c.bytes(), &[3, 4, 5]);
    assert_eq!(c.path()[1], "c");
    assert!(it.next().is_none());
    assert!(it.next().is_none());
}

#[test]
fn downloaded_refuses_files_that_do_not_fit() {
    assert!(Downloaded::new(vec![1, 2], vec![file(3, "a")]).is_none());
    assert!(Downloaded::new(vec![1, 2], vec![file(1, "a"), file(1, "b")]).is_some());
}

#[test]
fn downloaded_iter_starts_at_the_first_file() {
    let d = Downloaded::new(vec![9, 8], vec![file(1, "a"), file(1, "b")]).unwrap();
    let mut it = d.iter();
    assert_eq!(it.next().unwrap().bytes(), &[9]);
    assert_eq!(it.next().unwrap().bytes(), &[8]);
    assert!(it.next().is_none());
}

#[test]
fn downloaded_files_tile_the_covered_prefix() {
    let d = Downloaded::new(vec![1, 2, 3, 4, 5, 6, 7], vec![file(2, "a"), file(0, "b"), file(3, "c")]).unwrap();
    let mut it = d.iter();
    let mut all = Vec::new();
    let mut count = 0;
    while let Some(f) = it.next() {
        all.extend_from_slice(f.bytes());
        count += 1;
    }
    assert_eq!(count, 3);
    assert_eq!(all, vec![1, 2, 3, 4, 5]);
}
