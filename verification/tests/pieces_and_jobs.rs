use mktorrent_rs::dirwalker::{DataFile, WalkedDir};
use mktorrent_rs::job::{plan_file, HashJob};
use mktorrent_rs::pieces::{
    check_piece_size, choose_piece_size, hash_region, piece_level, JobOutput,
};
use mktorrent_rs::torrent_meta_v2::{FileMetadata, TorrentMetadata};
use sha1::{Digest, Sha1};
use sha2::Sha256;

fn file(components: &[&str], length: u64) -> DataFile {
    DataFile {
        path: components.join("/"),
        path_components: components.iter().map(|s| s.to_string()).collect(),
        length,
    }
}

fn sha1_of(data: &[u8]) -> Vec<u8> {
    Sha1::digest(data).to_vec()
}

fn sha256_of(data: &[u8]) -> Vec<u8> {
    Sha256::digest(data).to_vec()
}

fn pattern(len: usize, seed: u32) -> Vec<u8> {
    let mut x = seed;
    (0..len)
        .map(|_| {
            x = x.wrapping_mul(1664525).wrapping_add(1013904223);
            (x >> 24) as u8
        })
        .collect()
}

fn dht() -> Vec<(String, u16)> {
    vec![("h".to_string(), 1)]
}

#[test]
fn piece_sizes_are_powers_of_two_in_range() {
    for shift in 0..40 {
        let x = 1u64 << shift;
        assert_eq!(check_piece_size(x), (14..=21).contains(&shift), "{}", x);
    }
    assert!(!check_piece_size(0));
    assert!(!check_piece_size(16384 + 1));
    assert!(!check_piece_size(3 * 16384));
    assert!(!check_piece_size(2097152 - 1));
    assert!(!check_piece_size(u64::MAX));
}

#[test]
fn piece_size_policy() {
    assert_eq!(choose_piece_size(Some(65536), 0), 65536);
    assert_eq!(choose_piece_size(Some(65536), u64::MAX), 65536);
    assert_eq!(choose_piece_size(None, 0), 262144);
    assert_eq!(choose_piece_size(None, 50 * 1024 * 1024 * 1024 - 1), 262144);
    assert_eq!(choose_piece_size(None, 50 * 1024 * 1024 * 1024), 1048576);
    assert_eq!(choose_piece_size(None, u64::MAX), 1048576);
}

#[test]
fn piece_levels() {
    assert_eq!(piece_level(16384), 0);
    assert_eq!(piece_level(32768), 1);
    assert_eq!(piece_level(262144), 4);
    assert_eq!(piece_level(2097152), 7);
}

#[test]
fn buffer_lengths_follow_the_file_length() {
    for (len, piece) in [
        (1u64, 16384u64),
        (16383, 16384),
        (16384, 16384),
        (16385, 16384),
        (100000, 32768),
        (262144, 262144),
        (262145, 262144),
        (5 * 1048576 + 3, 2097152),
    ] {
        let rec = FileMetadata::new(file(&["r", "f"], len), piece);
        let leaves = (len + 16383) / 16384;
        let pieces = (len + piece - 1) / piece;
        assert_eq!(rec.merkle_piece_count, leaves);
        assert_eq!(rec.hash_v1_piece_count, pieces);
        assert_eq!(rec.merkle_tree.len(), 1);
        assert_eq!(rec.merkle_tree[0].len() as u64, leaves * 32);
        assert_eq!(rec.hash_v1.len() as u64, pieces * 20);
        assert!(rec.merkle_tree[0].iter().all(|b| *b == 0));
        assert!(rec.hash_v1.iter().all(|b| *b == 0));
        assert!(!rec.is_last_data_file);
        let pad = if len % piece == 0 { 0 } else { piece - len % piece };
        assert_eq!(rec.padding, pad);
    }
}

#[test]
fn empty_file_has_no_buffers() {
    let rec = FileMetadata::new(file(&["r", "f"], 0), 16384);
    assert_eq!(rec.merkle_piece_count, 0);
    assert_eq!(rec.hash_v1_piece_count, 0);
    assert!(rec.merkle_tree.is_empty());
    assert!(rec.hash_v1.is_empty());
    assert_eq!(rec.padding, 0);
    assert!(!rec.is_last_data_file);
}

#[test]
fn small_file_is_one_job() {
    let mut jobs: Vec<HashJob> = vec![];
    plan_file(3, 100000, 32768, false, &mut jobs);
    assert_eq!(jobs.len(), 1);
    let j = &jobs[0];
    assert_eq!(j.file, 3);
    assert_eq!(j.offset, 0);
    assert_eq!(j.data_len, 100000);
    assert_eq!(j.v1_pieces, 4);
    assert_eq!(j.v1_piece_size, 32768);
    assert_eq!(j.v2_pieces, 7);
    assert!(j.v1_last_hash_zero_fill);
    assert!(j.check_fits(100000));
    assert!(j.check_fits(100001));
    assert!(!j.check_fits(99999));

    let mut jobs: Vec<HashJob> = vec![];
    plan_file(0, 100000, 32768, true, &mut jobs);
    assert!(!jobs[0].v1_last_hash_zero_fill);
}

#[test]
fn large_file_is_cut_evenly() {
    // 2.5 GiB + 5 bytes in pieces of 1 MiB: 2561 pieces in 3 jobs.
    let length = 2560u64 * 1048576 + 5;
    let mut jobs: Vec<HashJob> = vec![];
    plan_file(0, length, 1048576, true, &mut jobs);
    assert_eq!(jobs.len(), 3);
    let pieces: Vec<u64> = jobs.iter().map(|j| j.v1_pieces).collect();
    assert_eq!(pieces, vec![854, 854, 853]);
    let mut offset = 0u64;
    let mut leaves = 0u64;
    for (idx, j) in jobs.iter().enumerate() {
        assert_eq!(j.offset, offset);
        assert_eq!(j.offset % 1048576, 0);
        assert!(j.check_fits(length));
        if idx < 2 {
            assert_eq!(j.data_len, j.v1_pieces * 1048576);
            assert_eq!(j.v2_pieces, j.v1_pieces * 64);
            assert!(j.v1_last_hash_zero_fill);
        } else {
            assert_eq!(j.data_len, 852 * 1048576 + 5);
            assert_eq!(j.v2_pieces, 852 * 64 + 1);
            assert!(!j.v1_last_hash_zero_fill);
        }
        offset += j.data_len;
        leaves += j.v2_pieces;
    }
    assert_eq!(offset, length);
    assert_eq!(leaves, (length + 16383) / 16384);
}

#[test]
fn jobs_at_the_size_limit() {
    let gib = 1u64 << 30;
    let mut jobs: Vec<HashJob> = vec![];
    plan_file(0, gib, 16384, false, &mut jobs);
    assert_eq!(jobs.len(), 1);
    assert_eq!(jobs[0].v1_pieces, 65536);
    let mut jobs: Vec<HashJob> = vec![];
    plan_file(0, gib + 1, 16384, false, &mut jobs);
    assert_eq!(jobs.len(), 2);
    assert_eq!(jobs[0].v1_pieces, 32769);
    assert_eq!(jobs[1].v1_pieces, 32768);
    assert_eq!(jobs[1].offset, 32769 * 16384);
    assert_eq!(jobs[1].data_len, gib + 1 - 32769 * 16384);
}

#[test]
fn region_digests_with_and_without_zero_fill() {
    let data = pattern(3 * 32768 + 100, 1);
    let out = hash_region(&data, 32768, true);
    let plain = hash_region(&data, 32768, false);
    assert_eq!(out.v2.len(), 7 * 32);
    assert_eq!(out.v1.len(), 4 * 20);
    assert_eq!(out.v2, plain.v2);
    for k in 0..6 {
        assert_eq!(&out.v2[k * 32..(k + 1) * 32], &sha256_of(&data[k * 16384..(k + 1) * 16384])[..]);
    }
    assert_eq!(&out.v2[6 * 32..], &sha256_of(&data[6 * 16384..])[..]);
    for k in 0..3 {
        assert_eq!(&out.v1[k * 20..(k + 1) * 20], &sha1_of(&data[k * 32768..(k + 1) * 32768])[..]);
        assert_eq!(&plain.v1[k * 20..(k + 1) * 20], &out.v1[k * 20..(k + 1) * 20]);
    }
    let mut tail = data[3 * 32768..].to_vec();
    assert_eq!(&plain.v1[60..], &sha1_of(&tail)[..]);
    tail.resize(32768, 0);
    assert_eq!(&out.v1[60..], &sha1_of(&tail)[..]);
}

#[test]
fn region_of_whole_pieces_needs_no_fill() {
    let data = pattern(2 * 16384, 2);
    let a = hash_region(&data, 16384, true);
    let b = hash_region(&data, 16384, false);
    assert_eq!(a.v1, b.v1);
    assert_eq!(a.v1, [sha1_of(&data[..16384]), sha1_of(&data[16384..])].concat());
    let empty = hash_region(&[], 16384, true);
    assert!(empty.v1.is_empty() && empty.v2.is_empty());
}

#[test]
fn job_hash_covers_its_stretch_only() {
    let data = pattern(5 * 16384 + 7, 3);
    let job = HashJob {
        file: 0,
        offset: 2 * 16384,
        data_len: 2 * 16384,
        v1_pieces: 2,
        v1_piece_size: 16384,
        v1_last_hash_zero_fill: true,
        v2_pieces: 2,
    };
    let out = job.hash(&data).unwrap();
    assert_eq!(
        out.v1,
        [sha1_of(&data[2 * 16384..3 * 16384]), sha1_of(&data[3 * 16384..4 * 16384])].concat()
    );
    assert_eq!(
        out.v2,
        [sha256_of(&data[2 * 16384..3 * 16384]), sha256_of(&data[3 * 16384..4 * 16384])].concat()
    );
}

#[test]
fn job_that_does_not_fit_yields_nothing() {
    let data = pattern(16384, 4);
    let fits = HashJob {
        file: 0,
        offset: 0,
        data_len: 16384,
        v1_pieces: 1,
        v1_piece_size: 16384,
        v1_last_hash_zero_fill: true,
        v2_pieces: 1,
    };
    assert!(fits.hash(&data).is_some());
    assert!(HashJob { data_len: 16385, v1_pieces: 2, v2_pieces: 2, ..fits_copy(&fits) }
        .hash(&data)
        .is_none());
    assert!(HashJob { v1_pieces: 2, ..fits_copy(&fits) }.hash(&data).is_none());
    assert!(HashJob { v2_pieces: 2, ..fits_copy(&fits) }.hash(&data).is_none());
    assert!(HashJob { offset: 1, data_len: 16383, ..fits_copy(&fits) }.hash(&data).is_none());
    assert!(HashJob { v1_piece_size: 16383, ..fits_copy(&fits) }.hash(&data).is_none());
    assert!(HashJob { data_len: 0, v1_pieces: 0, v2_pieces: 0, ..fits_copy(&fits) }
        .hash(&data)
        .is_none());
}

fn fits_copy(j: &HashJob) -> HashJob {
    HashJob {
        file: j.file,
        offset: j.offset,
        data_len: j.data_len,
        v1_pieces: j.v1_pieces,
        v1_piece_size: j.v1_piece_size,
        v1_last_hash_zero_fill: j.v1_last_hash_zero_fill,
        v2_pieces: j.v2_pieces,
    }
}

fn torrent(lengths: &[u64], piece: u64) -> (TorrentMetadata, Vec<Vec<u8>>) {
    let files: Vec<DataFile> = lengths
        .iter()
        .enumerate()
        .map(|(i, l)| file(&["root", &format!("f{:02}", i)], *l))
        .collect();
    let contents: Vec<Vec<u8>> = lengths
        .iter()
        .enumerate()
        .map(|(i, l)| pattern(*l as usize, i as u32 + 10))
        .collect();
    let meta = TorrentMetadata::new(vec![], dht(), false, Some(piece), vec![], WalkedDir { files })
        .unwrap();
    (meta, contents)
}

#[test]
fn last_data_file_is_marked_and_unpadded() {
    let (meta, _) = torrent(&[10, 0, 20000, 0, 0], 16384);
    let marks: Vec<bool> = meta.files.iter().map(|f| f.is_last_data_file).collect();
    assert_eq!(marks, vec![false, false, true, false, false]);
    let pads: Vec<u64> = meta.files.iter().map(|f| f.padding).collect();
    assert_eq!(pads, vec![16374, 0, 0, 0, 0]);
    assert_eq!(meta.total_bytes, 20010);
    assert_eq!(meta.piece_factor, 1);
    assert_eq!(meta.piece_level, 0);

    let (meta, _) = torrent(&[0, 0], 32768);
    assert!(meta.files.iter().all(|f| !f.is_last_data_file));
    assert_eq!(meta.piece_factor, 2);
    assert_eq!(meta.piece_level, 1);
}

#[test]
fn plan_lists_the_jobs_of_all_files_in_order() {
    let (meta, _) = torrent(&[10, 0, 20000, 40000], 16384);
    let jobs = meta.plan_jobs();
    assert_eq!(jobs.len(), 3);
    assert_eq!(jobs.iter().map(|j| j.file).collect::<Vec<_>>(), vec![0, 2, 3]);
    assert_eq!(jobs.iter().map(|j| j.data_len).collect::<Vec<_>>(), vec![10, 20000, 40000]);
    assert_eq!(
        jobs.iter().map(|j| j.v1_last_hash_zero_fill).collect::<Vec<_>>(),
        vec![true, true, false]
    );
}

#[test]
fn storing_in_any_order_gives_what_hash_gives() {
    let lengths = [70000u64, 0, 5, 16384, 123456, 0];
    let (mut whole, contents) = torrent(&lengths, 32768);
    let expected = whole.hash(&contents, true, true).unwrap().serialize();

    for order in 0..3 {
        let (mut meta, _) = torrent(&lengths, 32768);
        let mut jobs = meta.plan_jobs();
        match order {
            0 => {}
            1 => jobs.reverse(),
            _ => jobs.rotate_left(2),
        }
        let done: Vec<(HashJob, JobOutput)> = jobs
            .into_iter()
            .map(|j| {
                let out = j.hash(&contents[j.file]).unwrap();
                (j, out)
            })
            .collect();
        for (j, out) in &done {
            assert!(meta.store(j, out));
        }
        meta.complete_trees();
        let out = meta.assemble(true, true).unwrap().serialize();
        assert_eq!(out, expected);
        for (a, b) in meta.files.iter().zip(whole.files.iter()) {
            assert_eq!(a.hash_v1, b.hash_v1);
            assert_eq!(a.merkle_tree, b.merkle_tree);
        }
    }
}

#[test]
fn hashing_twice_gives_the_same() {
    let (mut meta, contents) = torrent(&[70000, 3], 16384);
    let first = meta.hash(&contents, true, true).unwrap().serialize();
    let second = meta.hash(&contents, true, true).unwrap().serialize();
    assert_eq!(first, second);
}

#[test]
fn store_refuses_what_does_not_fit() {
    let (mut meta, contents) = torrent(&[40000, 100], 16384);
    let jobs = meta.plan_jobs();
    let out0 = jobs[0].hash(&contents[0]).unwrap();
    let before: Vec<Vec<u8>> = meta.files.iter().map(|f| f.hash_v1.clone()).collect();

    let short = JobOutput { v1: out0.v1[..20].to_vec(), v2: out0.v2.clone() };
    assert!(!meta.store(&jobs[0], &short));
    let wrong_file = HashJob { file: 7, ..fits_copy(&jobs[0]) };
    assert!(!meta.store(&wrong_file, &out0));
    let wrong_size = HashJob { v1_piece_size: 32768, ..fits_copy(&jobs[0]) };
    assert!(!meta.store(&wrong_size, &out0));
    let other_file = HashJob { file: 1, ..fits_copy(&jobs[0]) };
    assert!(!meta.store(&other_file, &out0));
    let after: Vec<Vec<u8>> = meta.files.iter().map(|f| f.hash_v1.clone()).collect();
    assert_eq!(before, after);

    assert!(meta.store(&jobs[0], &out0));
    assert_eq!(meta.files[0].hash_v1, out0.v1);
    assert_eq!(meta.files[0].merkle_tree[0], out0.v2);
    assert_eq!(meta.files[1].hash_v1, before[1]);
}
