use mktorrent_rs::dirwalker::{DataFile, WalkedDir};
use mktorrent_rs::error::{ErrorKind, TorrentError};
use mktorrent_rs::torrent_meta::TorrentMetadata as TorrentMetadataV1;
use mktorrent_rs::torrent_meta_v2::TorrentMetadata as TorrentMetadataV2;

fn file(components: &[&str], length: u64) -> DataFile {
    DataFile {
        path: components.join("/"),
        path_components: components.iter().map(|s| s.to_string()).collect(),
        length,
    }
}

fn dht() -> Vec<(String, u16)> {
    vec![("h".to_string(), 1)]
}

fn v2(
    announces: Vec<Vec<String>>,
    nodes: Vec<(String, u16)>,
    piece: Option<u64>,
    files: Vec<DataFile>,
) -> Result<TorrentMetadataV2, TorrentError> {
    TorrentMetadataV2::new(announces, nodes, false, piece, vec![], WalkedDir { files })
}

fn err_of(r: Result<TorrentMetadataV2, TorrentError>) -> TorrentError {
    match r {
        Ok(_) => panic!("accepted"),
        Err(e) => e,
    }
}

#[test]
fn bad_piece_size_is_rejected() {
    for bad in [0u64, 1, 8192, 16383, 16385, 49152, 2097153, 4194304, u64::MAX] {
        let e = err_of(v2(vec![], dht(), Some(bad), vec![file(&["x"], 1)]));
        assert_eq!(e, TorrentError::BadPieceSize);
        assert_eq!(e.kind(), ErrorKind::ConfigInvalid);
    }
    for good in [16384u64, 32768, 65536, 131072, 262144, 524288, 1048576, 2097152] {
        let m = v2(vec![], dht(), Some(good), vec![file(&["x"], 1)]).unwrap();
        assert_eq!(m.piece_size, good);
        assert_eq!(m.piece_factor, good / 16384);
        assert_eq!(1u64 << m.piece_level, m.piece_factor);
    }
}

#[test]
fn empty_input_is_rejected() {
    assert_eq!(err_of(v2(vec![], dht(), None, vec![])), TorrentError::NoInput);
}

#[test]
fn no_tracker_and_no_node_is_rejected() {
    assert_eq!(
        err_of(v2(vec![], vec![], None, vec![file(&["x"], 1)])),
        TorrentError::NoTracker
    );
    assert!(v2(vec![vec!["t".to_string()]], vec![], None, vec![file(&["x"], 1)]).is_ok());
}

#[test]
fn empty_first_tier_is_rejected() {
    assert_eq!(
        err_of(v2(vec![vec![]], dht(), None, vec![file(&["x"], 1)])),
        TorrentError::EmptyTier
    );
    assert!(v2(vec![vec!["t".to_string()], vec![]], dht(), None, vec![file(&["x"], 1)]).is_ok());
}

#[test]
fn bad_paths_are_rejected() {
    assert_eq!(
        err_of(v2(vec![], dht(), None, vec![file(&[], 1)])),
        TorrentError::BadPath
    );
    assert_eq!(
        err_of(v2(vec![], dht(), None, vec![file(&["r", "a"], 1), file(&["r", ""], 1)])),
        TorrentError::BadPath
    );
    assert_eq!(
        err_of(v2(vec![], dht(), None, vec![file(&[""], 1)])),
        TorrentError::BadPath
    );
}

#[test]
fn files_under_another_root_are_rejected() {
    let e = err_of(v2(vec![], dht(), None, vec![file(&["r", "a"], 1), file(&["s", "b"], 1)]));
    assert_eq!(e, TorrentError::RootMismatch);
    assert_eq!(e.kind(), ErrorKind::ConfigInvalid);
}

#[test]
fn lengths_beyond_the_integers_are_rejected() {
    assert_eq!(
        err_of(v2(vec![], dht(), None, vec![file(&["x"], (i64::MAX as u64) + 1)])),
        TorrentError::TooLarge
    );
    assert_eq!(
        err_of(v2(
            vec![],
            dht(),
            None,
            vec![
                file(&["r", "a"], i64::MAX as u64),
                file(&["r", "b"], i64::MAX as u64),
                file(&["r", "c"], 2),
            ]
        )),
        TorrentError::TooLarge
    );
    assert_eq!(
        err_of(v2(vec![], dht(), None, vec![file(&["r", "a"], 5), file(&["r", "b"], u64::MAX)])),
        TorrentError::TooLarge
    );
}

#[test]
fn faults_are_reported_in_order() {
    assert_eq!(err_of(v2(vec![], vec![], Some(5), vec![])), TorrentError::BadPieceSize);
    assert_eq!(err_of(v2(vec![], vec![], None, vec![])), TorrentError::NoInput);
    assert_eq!(
        err_of(v2(vec![], vec![], None, vec![file(&[], u64::MAX)])),
        TorrentError::NoTracker
    );
    assert_eq!(
        err_of(v2(vec![vec![]], vec![], None, vec![file(&[], u64::MAX)])),
        TorrentError::EmptyTier
    );
    assert_eq!(
        err_of(v2(vec![], dht(), None, vec![file(&["a"], 1), file(&[], u64::MAX)])),
        TorrentError::BadPath
    );
    assert_eq!(
        err_of(v2(vec![], dht(), None, vec![file(&["a"], 1), file(&["b"], u64::MAX)])),
        TorrentError::RootMismatch
    );
}

#[test]
fn hashing_needs_an_output() {
    let mut m = v2(vec![], dht(), Some(16384), vec![file(&["x"], 1)]).unwrap();
    let e = m.hash(&vec![vec![0u8]], false, false).err().unwrap();
    assert_eq!(e, TorrentError::NoOutput);
    assert_eq!(e.kind(), ErrorKind::ConfigInvalid);
    assert_eq!(m.assemble(false, false).err().unwrap(), TorrentError::NoOutput);
    assert!(m.files[0].hash_v1.iter().all(|b| *b == 0));
}

#[test]
fn data_must_match_the_file_list() {
    let files = vec![file(&["r", "a"], 3), file(&["r", "b"], 0), file(&["r", "c"], 2)];
    let mut m = v2(vec![], dht(), Some(16384), files).unwrap();
    let e = m.hash(&vec![vec![1, 2, 3], vec![], vec![1]], true, true).err().unwrap();
    assert_eq!(e, TorrentError::DataMismatch(2));
    assert_eq!(e.kind(), ErrorKind::IoFailure);
    assert_eq!(
        m.hash(&vec![vec![1, 2], vec![], vec![1, 2]], true, true).err().unwrap(),
        TorrentError::DataMismatch(0)
    );
    assert_eq!(
        m.hash(&vec![vec![1, 2, 3]], true, true).err().unwrap(),
        TorrentError::DataMismatch(1)
    );
    assert_eq!(
        m.hash(&vec![vec![1, 2, 3], vec![], vec![1, 2], vec![]], true, true).err().unwrap(),
        TorrentError::DataMismatch(3)
    );
    assert!(m.files.iter().all(|f| f.hash_v1.iter().all(|b| *b == 0)));
    assert!(m.hash(&vec![vec![1, 2, 3], vec![], vec![1, 2]], true, true).is_ok());
}

#[test]
fn version_2_needs_the_piece_layers() {
    // With pieces of two leaves, the leaf layer alone is not enough.
    let mut m = v2(vec![], dht(), Some(32768), vec![file(&["x"], 40000)]).unwrap();
    let e = m.assemble(true, true).err().unwrap();
    assert_eq!(e, TorrentError::Inconsistent);
    assert_eq!(e.kind(), ErrorKind::StructuralInvariant);
    assert_eq!(m.assemble(false, true).err().unwrap(), TorrentError::Inconsistent);
    assert!(m.assemble(true, false).is_ok());
    m.complete_trees();
    assert!(m.assemble(true, true).is_ok());
    assert!(m.assemble(false, true).is_ok());

    // A file of one piece is not listed, so no layer of it is missed.
    let m = v2(vec![], dht(), Some(32768), vec![file(&["x"], 32768)]).unwrap();
    assert!(m.assemble(false, true).is_ok());
}

#[test]
fn v1_setup_faults() {
    let e = TorrentMetadataV1::new(vec![], dht(), false, Some(3), vec![]).err().unwrap();
    assert_eq!(e, TorrentError::BadPieceSize);
    let e = TorrentMetadataV1::new(vec![], vec![], false, None, vec![]).err().unwrap();
    assert_eq!(e, TorrentError::NoTracker);
    let e = TorrentMetadataV1::new(vec![vec![]], vec![], false, None, vec![]).err().unwrap();
    assert_eq!(e, TorrentError::EmptyTier);
    let m = TorrentMetadataV1::new(vec![], dht(), true, None, vec![]).unwrap();
    assert_eq!(m.piece_size, 0);
    assert!(m.files.is_empty());
    assert!(m.private);
}

#[test]
fn v1_file_list_faults() {
    let mut m = TorrentMetadataV1::new(vec![], dht(), false, None, vec![]).unwrap();
    assert_eq!(m.hash(&vec![]).err().unwrap(), TorrentError::NoInput);
    m.scan(WalkedDir { files: vec![file(&["r", "a"], 1), file(&["r"], 1)] });
    assert_eq!(m.hash(&vec![vec![0], vec![0]]).err().unwrap(), TorrentError::BadPath);

    let mut m = TorrentMetadataV1::new(vec![], dht(), false, None, vec![]).unwrap();
    m.scan(WalkedDir { files: vec![file(&["r", "a"], 1), file(&["s", "b"], 1)] });
    assert_eq!(m.hash(&vec![vec![0], vec![0]]).err().unwrap(), TorrentError::RootMismatch);

    let mut m = TorrentMetadataV1::new(vec![], dht(), false, None, vec![]).unwrap();
    m.scan(WalkedDir { files: vec![file(&["r", "a"], u64::MAX)] });
    assert_eq!(m.hash(&vec![vec![0]]).err().unwrap(), TorrentError::TooLarge);

    let mut m = TorrentMetadataV1::new(vec![], dht(), false, None, vec![]).unwrap();
    m.scan(WalkedDir { files: vec![file(&["r", "a"], 2)] });
    assert_eq!(m.hash(&vec![vec![0]]).err().unwrap(), TorrentError::DataMismatch(0));
    assert_eq!(m.piece_size, 0);
    assert!(m.hash(&vec![vec![0, 1]]).is_ok());
    assert_eq!(m.piece_size, 262144);
}
