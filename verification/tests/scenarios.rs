use mktorrent_rs::bencode::BencodeValue;
use mktorrent_rs::dirwalker::{DataFile, WalkedDir};
use mktorrent_rs::torrent_meta::TorrentMetadata as TorrentMetadataV1;
use mktorrent_rs::torrent_meta_v2::TorrentMetadata as TorrentMetadataV2;
use sha1::{Digest, Sha1};
use sha2::Sha256;

fn file(components: &[&str], length: u64) -> DataFile {
    DataFile {
        path: components.join("/"),
        path_components: components.iter().map(|s| s.to_string()).collect(),
        length,
    }
}

fn sha1_of(data: &[u8]) -> Vec<u8> {
    Sha1::digest(data).to_vec()
}

fn sha256_of(data: &[u8]) -> Vec<u8> {
    Sha256::digest(data).to_vec()
}

fn bstr(bytes: &[u8]) -> Vec<u8> {
    let mut out = format!("{}:", bytes.len()).into_bytes();
    out.extend_from_slice(bytes);
    out
}

fn cat(parts: &[&[u8]]) -> Vec<u8> {
    let mut out = vec![];
    for p in parts {
        out.extend_from_slice(p);
    }
    out
}

fn dht() -> Vec<(String, u16)> {
    vec![("dht.example".to_string(), 6881)]
}

#[test]
fn single_small_file_without_padding() {
    let mut meta =
        TorrentMetadataV1::new(vec![], dht(), false, Some(16384), vec![]).unwrap();
    meta.scan(WalkedDir { files: vec![file(&["x.bin"], 17)] });
    let data = vec![0u8; 17];
    let out = meta.hash(&vec![data.clone()]).unwrap().serialize();
    let expected = cat(&[
        b"d4:infod6:lengthi17e4:name5:x.bin12:piece lengthi16384e6:pieces",
        &bstr(&sha1_of(&data)),
        b"e5:nodesll11:dht.examplei6881eeee",
    ]);
    assert_eq!(out, expected);
}

#[test]
fn single_small_file_with_padding_agrees() {
    let mut meta = TorrentMetadataV2::new(
        vec![],
        dht(),
        false,
        Some(16384),
        vec![],
        WalkedDir { files: vec![file(&["x.bin"], 17)] },
    )
    .unwrap();
    let data = vec![0u8; 17];
    let out = meta.hash(&vec![data.clone()], true, false).unwrap().serialize();
    let expected = cat(&[
        b"d4:infod6:lengthi17e4:name5:x.bin12:piece lengthi16384e6:pieces",
        &bstr(&sha1_of(&data)),
        b"e5:nodesll11:dht.examplei6881eeee",
    ]);
    assert_eq!(out, expected);
    assert_eq!(meta.files[0].hash_v1, sha1_of(&data));
    assert!(meta.files[0].is_last_data_file);
    assert_eq!(meta.files[0].padding, 0);
}

#[test]
fn two_aligned_files_have_no_padding_entry() {
    let a = vec![0x41u8; 16384];
    let b = vec![0x42u8; 32768];
    let mut meta = TorrentMetadataV2::new(
        vec![],
        dht(),
        false,
        Some(16384),
        vec![],
        WalkedDir { files: vec![file(&["root", "a"], 16384), file(&["root", "b"], 32768)] },
    )
    .unwrap();
    let out = meta.hash(&vec![a.clone(), b.clone()], true, false).unwrap().serialize();
    let pieces = cat(&[&sha1_of(&a), &sha1_of(&b[..16384]), &sha1_of(&b[16384..])]);
    let expected = cat(&[
        b"d4:infod5:filesl",
        b"d6:lengthi16384e4:pathl1:aee",
        b"d6:lengthi32768e4:pathl1:bee",
        b"e4:name4:root12:piece lengthi16384e6:pieces",
        &bstr(&pieces),
        b"e5:nodesll11:dht.examplei6881eeee",
    ]);
    assert_eq!(out, expected);
    assert_eq!(meta.files[0].padding, 0);
    assert_eq!(meta.files[1].padding, 0);
}

#[test]
fn short_file_is_zero_filled_and_followed_by_padding_file() {
    let a = vec![0x41u8; 10240];
    let b = vec![0x42u8; 32768];
    let mut meta = TorrentMetadataV2::new(
        vec![],
        dht(),
        false,
        Some(16384),
        vec![],
        WalkedDir { files: vec![file(&["root", "a"], 10240), file(&["root", "b"], 32768)] },
    )
    .unwrap();
    let out = meta.hash(&vec![a.clone(), b.clone()], true, false).unwrap().serialize();
    let mut a_filled = a.clone();
    a_filled.resize(16384, 0);
    let pieces = cat(&[&sha1_of(&a_filled), &sha1_of(&b[..16384]), &sha1_of(&b[16384..])]);
    let expected = cat(&[
        b"d4:infod5:filesl",
        b"d6:lengthi10240e4:pathl1:aee",
        b"d4:attr1:p",
        b"6:lengthi6144e4:pathl4:.pad4:6144ee",
        b"d6:lengthi32768e4:pathl1:bee",
        b"e4:name4:root12:piece lengthi16384e6:pieces",
        &bstr(&pieces),
        b"e5:nodesll11:dht.examplei6881eeee",
    ]);
    assert_eq!(out, expected);
    assert_eq!(meta.files[0].padding, 6144);
    assert_eq!(meta.files[0].hash_v1, sha1_of(&a_filled));
    assert_eq!(meta.files[1].hash_v1, cat(&[&sha1_of(&b[..16384]), &sha1_of(&b[16384..])]));
}

#[test]
fn hybrid_single_file_of_three_leaves() {
    let data: Vec<u8> = (0..49152u32).map(|i| (i % 251) as u8).collect();
    let mut meta = TorrentMetadataV2::new(
        vec![],
        dht(),
        false,
        Some(16384),
        vec![],
        WalkedDir { files: vec![file(&["big.dat"], 49152)] },
    )
    .unwrap();
    let out = meta.hash(&vec![data.clone()], true, true).unwrap().serialize();
    let l0 = sha256_of(&data[..16384]);
    let l1 = sha256_of(&data[16384..32768]);
    let l2 = sha256_of(&data[32768..]);
    let z0 = vec![0u8; 32];
    let n0 = sha256_of(&cat(&[&l0, &l1]));
    let n1 = sha256_of(&cat(&[&l2, &z0]));
    let root = sha256_of(&cat(&[&n0, &n1]));
    let leaves = cat(&[&l0, &l1, &l2]);
    let pieces = cat(&[
        &sha1_of(&data[..16384]),
        &sha1_of(&data[16384..32768]),
        &sha1_of(&data[32768..]),
    ]);
    let expected = cat(&[
        b"d4:infod9:file treed7:big.datd0:d6:lengthi49152e11:pieces root",
        &bstr(&root),
        b"eee6:lengthi49152e12:meta versioni2e4:name7:big.dat12:piece lengthi16384e6:pieces",
        &bstr(&pieces),
        b"e5:nodesll11:dht.examplei6881eee12:piece layersd",
        &bstr(&root),
        &bstr(&leaves),
        b"ee",
    ]);
    assert_eq!(out, expected);
    assert_eq!(meta.files[0].merkle_tree.len(), 3);
    assert_eq!(meta.files[0].merkle_tree[0], leaves);
    assert_eq!(meta.files[0].merkle_tree[1], cat(&[&n0, &n1]));
    assert_eq!(meta.files[0].merkle_tree[2], root);
}

#[test]
fn two_tiers_give_announce_and_announce_list() {
    let announces = vec![vec!["a".to_string(), "b".to_string()], vec!["c".to_string()]];
    let mut meta = TorrentMetadataV2::new(
        announces,
        vec![],
        false,
        Some(16384),
        vec![],
        WalkedDir { files: vec![file(&["x"], 1)] },
    )
    .unwrap();
    let out = meta.hash(&vec![vec![7u8]], true, false).unwrap().serialize();
    let expected = cat(&[
        b"d8:announce1:a13:announce-listll1:a1:bel1:cee",
        b"4:infod6:lengthi1e4:name1:x12:piece lengthi16384e6:pieces",
        &bstr(&sha1_of(&[7u8])),
        b"ee",
    ]);
    assert_eq!(out, expected);
}

#[test]
fn single_tracker_gives_no_announce_list() {
    let mut meta = TorrentMetadataV2::new(
        vec![vec!["a".to_string()]],
        vec![],
        false,
        Some(16384),
        vec![],
        WalkedDir { files: vec![file(&["x"], 1)] },
    )
    .unwrap();
    let out = meta.hash(&vec![vec![7u8]], true, false).unwrap().serialize();
    let expected = cat(&[
        b"d8:announce1:a",
        b"4:infod6:lengthi1e4:name1:x12:piece lengthi16384e6:pieces",
        &bstr(&sha1_of(&[7u8])),
        b"ee",
    ]);
    assert_eq!(out, expected);
}

#[test]
fn single_webseed_is_a_string() {
    let mut meta = TorrentMetadataV2::new(
        vec![],
        dht(),
        true,
        Some(16384),
        vec!["http://w1/".to_string()],
        WalkedDir { files: vec![file(&["x"], 1)] },
    )
    .unwrap();
    let out = meta.hash(&vec![vec![7u8]], true, false).unwrap().serialize();
    let expected = cat(&[
        b"d4:infod6:lengthi1e4:name1:x12:piece lengthi16384e6:pieces",
        &bstr(&sha1_of(&[7u8])),
        b"7:privatei1ee5:nodesll11:dht.examplei6881eee8:url-list10:http://w1/e",
    ]);
    assert_eq!(out, expected);
}

#[test]
fn two_webseeds_are_a_list() {
    let mut meta = TorrentMetadataV1::new(
        vec![],
        dht(),
        false,
        Some(16384),
        vec!["http://w1/".to_string(), "http://w2/".to_string()],
    )
    .unwrap();
    meta.scan(WalkedDir { files: vec![file(&["x"], 1)] });
    let out = meta.hash(&vec![vec![7u8]]).unwrap().serialize();
    let expected = cat(&[
        b"d4:infod6:lengthi1e4:name1:x12:piece lengthi16384e6:pieces",
        &bstr(&sha1_of(&[7u8])),
        b"e5:nodesll11:dht.examplei6881eee8:url-listl10:http://w1/10:http://w2/ee",
    ]);
    assert_eq!(out, expected);
}

#[test]
fn result_is_a_dictionary() {
    let mut meta = TorrentMetadataV2::new(
        vec![],
        dht(),
        false,
        None,
        vec![],
        WalkedDir { files: vec![file(&["x"], 0)] },
    )
    .unwrap();
    let value = meta.hash(&vec![vec![]], true, true).unwrap();
    assert!(matches!(value, BencodeValue::Dict(_)));
    assert_eq!(meta.piece_size, 262144);
    assert_eq!(
        value.serialize(),
        cat(&[
            b"d4:infod9:file treed1:xd0:d6:lengthi0eeee6:lengthi0e12:meta versioni2e",
            b"4:name1:x12:piece lengthi262144e6:pieces0:e",
            b"5:nodesll11:dht.examplei6881eee12:piece layersdee",
        ])
    );
}
