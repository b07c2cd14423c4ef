use mktorrent_rs::dirwalker::{DataFile, WalkedDir};
use mktorrent_rs::merkle::{complete_tree, next_layer_bytes, ZeroHashes};
use mktorrent_rs::sorting::{compare_paths, path_order};
use mktorrent_rs::bytestring::{compare_bytes, Place};
use mktorrent_rs::torrent_meta::{Bep3Hasher, TorrentMetadata as TorrentMetadataV1};
use mktorrent_rs::torrent_meta_v2::TorrentMetadata as TorrentMetadataV2;
use sha1::{Digest, Sha1};
use sha2::Sha256;
use std::cmp::Ordering;

fn file(components: &[&str], length: u64) -> DataFile {
    DataFile {
        path: components.join("/"),
        path_components: components.iter().map(|s| s.to_string()).collect(),
        length,
    }
}

fn sha1_of(data: &[u8]) -> Vec<u8> {
    Sha1::digest(data).to_vec()
}

fn sha256_of(data: &[u8]) -> Vec<u8> {
    Sha256::digest(data).to_vec()
}

fn pattern(len: usize, seed: u32) -> Vec<u8> {
    let mut x = seed;
    (0..len)
        .map(|_| {
            x = x.wrapping_mul(1664525).wrapping_add(1013904223);
            (x >> 24) as u8
        })
        .collect()
}

fn dht() -> Vec<(String, u16)> {
    vec![("h".to_string(), 1)]
}

fn reference_pieces(stream: &[u8], piece: usize) -> Vec<u8> {
    stream.chunks(piece).flat_map(|c| sha1_of(c)).collect()
}

fn reference_tree(leaves: &[Vec<u8>]) -> Vec<Vec<Vec<u8>>> {
    let mut layers = vec![leaves.to_vec()];
    let mut filler = vec![0u8; 32];
    while layers.last().unwrap().len() > 1 {
        let below = layers.last().unwrap();
        let mut above = vec![];
        for pair in below.chunks(2) {
            let right = if pair.len() == 2 { &pair[1] } else { &filler };
            above.push(sha256_of(&[pair[0].clone(), right.clone()].concat()));
        }
        filler = sha256_of(&[filler.clone(), filler.clone()].concat());
        layers.push(above);
    }
    layers
}

fn padded_root(leaves: &[Vec<u8>]) -> Vec<u8> {
    let mut layer = leaves.to_vec();
    let mut n = 1;
    while n < layer.len() {
        n *= 2;
    }
    layer.resize(n, vec![0u8; 32]);
    while layer.len() > 1 {
        layer = layer
            .chunks(2)
            .map(|p| sha256_of(&[p[0].clone(), p[1].clone()].concat()))
            .collect();
    }
    layer.remove(0)
}

#[test]
fn piece_stream_is_that_of_the_files_laid_end_to_end() {
    let parts = [pattern(10, 1), vec![], pattern(40000, 2), pattern(16384, 3), pattern(5, 4)];
    let stream: Vec<u8> = parts.concat();
    for piece in [16384u64, 32768] {
        let mut hasher = Bep3Hasher::new(piece);
        for p in &parts {
            hasher.visit_file(p);
        }
        hasher.visit_end();
        assert_eq!(hasher.size(), piece);
        assert_eq!(hasher.pieces(), reference_pieces(&stream, piece as usize));
    }
}

#[test]
fn piece_stream_of_whole_pieces_has_no_extra_digest() {
    let data = pattern(3 * 16384, 5);
    let mut hasher = Bep3Hasher::new(16384);
    hasher.visit_file(&data[..100]);
    hasher.visit_file(&data[100..]);
    hasher.visit_end();
    assert_eq!(hasher.pieces().len(), 60);
    assert_eq!(hasher.pieces(), reference_pieces(&data, 16384));

    let mut hasher = Bep3Hasher::new(16384);
    hasher.visit_file(b"");
    hasher.visit_end();
    assert!(hasher.pieces().is_empty());
}

#[test]
fn v1_torrent_of_several_files() {
    let a = pattern(20000, 6);
    let b = pattern(3, 7);
    let mut meta = TorrentMetadataV1::new(
        vec![vec!["http://t/".to_string()]],
        vec![],
        true,
        Some(16384),
        vec![],
    )
    .unwrap();
    meta.scan(WalkedDir { files: vec![file(&["r", "b"], 3), file(&["r", "a"], 20000)] });
    assert_eq!(meta.files[0].path_components, vec!["r", "a"]);
    assert_eq!(meta.files[1].path_components, vec!["r", "b"]);
    let out = meta.hash(&vec![a.clone(), b.clone()]).unwrap().serialize();
    let pieces = reference_pieces(&[a, b].concat(), 16384);
    let mut expected = b"d8:announce9:http://t/4:infod5:filesl".to_vec();
    expected.extend_from_slice(b"d6:lengthi20000e4:pathl1:aee");
    expected.extend_from_slice(b"d6:lengthi3e4:pathl1:bee");
    expected.extend_from_slice(b"e4:name1:r12:piece lengthi16384e6:pieces40:");
    expected.extend_from_slice(&pieces);
    expected.extend_from_slice(b"7:privatei1eee");
    assert_eq!(out, expected);
}

#[test]
fn v1_steps_give_what_hash_gives() {
    let a = pattern(20000, 8);
    let b = pattern(30000, 9);
    let files = || vec![file(&["r", "a"], 20000), file(&["r", "b"], 30000)];
    let mut whole = TorrentMetadataV1::new(vec![], dht(), false, None, vec![]).unwrap();
    whole.scan(WalkedDir { files: files() });
    let expected = whole.hash(&vec![a.clone(), b.clone()]).unwrap().serialize();

    let mut meta = TorrentMetadataV1::new(vec![], dht(), false, None, vec![]).unwrap();
    meta.scan(WalkedDir { files: files() });
    let mut hasher = meta.begin_hash().unwrap();
    assert_eq!(meta.piece_size, 262144);
    hasher.visit_file(&a);
    hasher.visit_file(&b);
    let out = meta.finish_hash(&mut hasher).unwrap().serialize();
    assert_eq!(out, expected);

    let mut other = Bep3Hasher::new(16384);
    assert!(meta.finish_hash(&mut other).is_err());
}

#[test]
fn scan_sorts_by_path_bytes() {
    let mut meta = TorrentMetadataV1::new(vec![], dht(), false, None, vec![]).unwrap();
    let names: Vec<Vec<&str>> = vec![
        vec!["r", "b"],
        vec!["r", "a", "z"],
        vec!["r", "a"],
        vec!["r", "B"],
        vec!["r", "ab"],
        vec!["r", "a", "b", "c"],
        vec!["r", "\u{e9}"],
        vec!["r", "a b"],
    ];
    meta.scan(WalkedDir { files: names.iter().map(|n| file(n, 1)).collect() });
    let got: Vec<Vec<String>> = meta.files.iter().map(|f| f.path_components.clone()).collect();
    let mut want: Vec<Vec<Vec<u8>>> = names
        .iter()
        .map(|n| n.iter().map(|s| s.as_bytes().to_vec()).collect())
        .collect();
    want.sort();
    let got_bytes: Vec<Vec<Vec<u8>>> = got
        .iter()
        .map(|n| n.iter().map(|s| s.as_bytes().to_vec()).collect())
        .collect();
    assert_eq!(got_bytes, want);
    assert_eq!(got[0], vec!["r", "B"]);
    assert_eq!(got[1], vec!["r", "a"]);

    // A second scan adds to the list and sorts the whole.
    meta.scan(WalkedDir { files: vec![file(&["r", "C"], 1)] });
    assert_eq!(meta.files.len(), 9);
    assert_eq!(meta.files[1].path_components, vec!["r", "C"]);
}

#[test]
fn walked_dir_sort() {
    let mut dir = WalkedDir { files: vec![file(&["r", "b"], 1), file(&["r", "a"], 2)] };
    dir.sort();
    assert_eq!(dir.files[0].length, 2);
    assert_eq!(dir.files[1].length, 1);
}

#[test]
fn orders() {
    assert_eq!(compare_bytes(b"", b""), Place::Same);
    assert_eq!(compare_bytes(b"", b"a"), Place::Before);
    assert_eq!(compare_bytes(b"a", b""), Place::After);
    assert_eq!(compare_bytes(b"ab", b"b"), Place::Before);
    assert_eq!(compare_bytes(b"abc", b"abd"), Place::Before);
    assert_eq!(compare_bytes(b"abd", b"abc"), Place::After);
    assert_eq!(compare_bytes(b"ab", b"abc"), Place::Before);
    assert_eq!(compare_bytes(b"\xff", b"\x7f"), Place::After);
    assert_eq!(compare_bytes(b"same", b"same"), Place::Same);

    let p = |v: &[&str]| v.iter().map(|s| s.to_string()).collect::<Vec<String>>();
    assert_eq!(compare_paths(&p(&["a", "b"]), &p(&["a", "b"])), Place::Same);
    assert_eq!(compare_paths(&p(&["a"]), &p(&["a", "b"])), Place::Before);
    assert_eq!(compare_paths(&p(&["a", "b"]), &p(&["ab"])), Place::Before);
    assert_eq!(compare_paths(&p(&["b"]), &p(&["a", "z"])), Place::After);
    assert_eq!(compare_paths(&p(&[]), &p(&[])), Place::Same);
    assert_eq!(path_order(&file(&["a", "b"], 1), &file(&["a", "c"], 9)), Ordering::Less);
    assert_eq!(path_order(&file(&["a", "b"], 1), &file(&["a", "b"], 9)), Ordering::Equal);
    assert_eq!(path_order(&file(&["b"], 1), &file(&["a", "c"], 9)), Ordering::Greater);
}

#[test]
fn zero_hashes() {
    let mut table = ZeroHashes::new();
    assert_eq!(table.level(0), &vec![0u8; 32]);
    let z1 = sha256_of(&[0u8; 64]);
    assert_eq!(table.level(1), &z1);
    assert_eq!(table.level(2), &sha256_of(&[z1.clone(), z1.clone()].concat()));
    let mut z = vec![0u8; 32];
    for _ in 0..49 {
        z = sha256_of(&[z.clone(), z.clone()].concat());
    }
    assert_eq!(table.level(49), &z);
    table.extend_to(52);
    for _ in 0..3 {
        z = sha256_of(&[z.clone(), z.clone()].concat());
    }
    assert_eq!(table.level(52), &z);
}

#[test]
fn layers_and_trees() {
    let fill = vec![9u8; 32];
    assert!(next_layer_bytes(&[], &fill).is_empty());
    for n in 1..=9usize {
        let leaves: Vec<Vec<u8>> = (0..n).map(|i| sha256_of(&[i as u8])).collect();
        let flat: Vec<u8> = leaves.concat();
        let above = next_layer_bytes(&flat, &fill);
        assert_eq!(above.len(), 32 * ((n + 1) / 2));
        for (i, pair) in leaves.chunks(2).enumerate() {
            let right = if pair.len() == 2 { pair[1].clone() } else { fill.clone() };
            assert_eq!(&above[32 * i..32 * i + 32], &sha256_of(&[pair[0].clone(), right].concat())[..]);
        }

        let mut tree = vec![flat.clone()];
        let mut zero = ZeroHashes::new();
        complete_tree(&mut tree, &mut zero);
        let want = reference_tree(&leaves);
        assert_eq!(tree.len(), want.len());
        for (layer, want_layer) in tree.iter().zip(want.iter()) {
            assert_eq!(layer, &want_layer.concat());
        }
        assert_eq!(tree.last().unwrap(), &padded_root(&leaves));
    }
}

#[test]
fn roots_and_piece_layers_of_a_hybrid_torrent() {
    // Pieces of four leaves; files of 1, 4, 5, 9 and 0 leaves.
    let lengths = [100u64, 65536, 65537, 140000, 0];
    let contents: Vec<Vec<u8>> =
        lengths.iter().enumerate().map(|(i, l)| pattern(*l as usize, 20 + i as u32)).collect();
    let files: Vec<DataFile> =
        lengths.iter().enumerate().map(|(i, l)| file(&["r", &format!("f{}", i)], *l)).collect();
    let mut meta =
        TorrentMetadataV2::new(vec![], dht(), false, Some(65536), vec![], WalkedDir { files })
            .unwrap();
    let out = meta.hash(&contents, true, true).unwrap().serialize();

    let mut layers_dict: Vec<(Vec<u8>, Vec<u8>)> = vec![];
    for (i, data) in contents.iter().enumerate() {
        let f = &meta.files[i];
        if data.is_empty() {
            assert!(f.merkle_tree.is_empty());
            continue;
        }
        let leaves: Vec<Vec<u8>> = data.chunks(16384).map(sha256_of).collect();
        let want = reference_tree(&leaves);
        assert_eq!(f.merkle_tree.len(), want.len());
        for (layer, want_layer) in f.merkle_tree.iter().zip(want.iter()) {
            assert_eq!(layer, &want_layer.concat());
        }
        let root = f.merkle_tree.last().unwrap().clone();
        assert_eq!(root, padded_root(&leaves));
        if data.len() as u64 > 65536 {
            let layer = &f.merkle_tree[2];
            assert_eq!(layer.len() as u64, f.hash_v1_piece_count * 32);
            assert_eq!(layer.len(), ((leaves.len() + 3) / 4) * 32);
            layers_dict.push((root, layer.clone()));
        }
    }
    assert_eq!(layers_dict.len(), 2);
    layers_dict.sort();
    let mut want = b"12:piece layersd".to_vec();
    for (k, v) in &layers_dict {
        want.extend_from_slice(format!("{}:", k.len()).as_bytes());
        want.extend_from_slice(k);
        want.extend_from_slice(format!("{}:", v.len()).as_bytes());
        want.extend_from_slice(v);
    }
    want.extend_from_slice(b"ee");
    assert!(out.ends_with(&want));
}

#[test]
fn file_tree_strips_the_root_when_all_files_lie_below_it() {
    let files = vec![
        file(&["r", "a"], 0),
        file(&["r", "d", "x"], 0),
        file(&["r", "d", "y"], 0),
        file(&["r", "e"], 0),
    ];
    let mut meta =
        TorrentMetadataV2::new(vec![], dht(), false, Some(16384), vec![], WalkedDir { files })
            .unwrap();
    let out = meta.hash(&vec![vec![], vec![], vec![], vec![]], false, true).unwrap().serialize();
    let want = [
        &b"d4:infod9:file treed"[..],
        b"1:ad0:d6:lengthi0eee",
        b"1:dd1:xd0:d6:lengthi0eee1:yd0:d6:lengthi0eeee",
        b"1:ed0:d6:lengthi0eee",
        b"e12:meta versioni2e4:name1:r12:piece lengthi16384ee",
        b"5:nodesll1:hi1eee12:piece layersdee",
    ]
    .concat();
    assert_eq!(out, want);
}

#[test]
fn file_tree_does_not_depend_on_the_order_of_the_files() {
    let a = vec![file(&["r", "d", "y"], 0), file(&["r", "a"], 0), file(&["r", "d", "x"], 0)];
    let b = vec![file(&["r", "a"], 0), file(&["r", "d", "x"], 0), file(&["r", "d", "y"], 0)];
    let mut ma =
        TorrentMetadataV2::new(vec![], dht(), false, Some(16384), vec![], WalkedDir { files: a })
            .unwrap();
    let mut mb =
        TorrentMetadataV2::new(vec![], dht(), false, Some(16384), vec![], WalkedDir { files: b })
            .unwrap();
    let empty = vec![vec![], vec![], vec![]];
    assert_eq!(
        ma.hash(&empty, false, true).unwrap().serialize(),
        mb.hash(&empty, false, true).unwrap().serialize()
    );
}
