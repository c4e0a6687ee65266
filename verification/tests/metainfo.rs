use bitturbulence::protocol::metainfo::{num_pieces, piece_length_for_size, FileEntry, Metainfo, BLOCK_SIZE};
use bitturbulence::pieces::verify::merkle_parent;
use bitturbulence::protocol::priority::Priority;
use bitturbulence::protocol::priority::Priority::{High, Higher, Low, Lower, Maximum, Minimum, Normal, VeryHigh, VeryLow};
use std::collections::HashSet;

const KB: u64 = 1024;
const MB: u64 = 1024 * KB;
const GB: u64 = 1024 * MB;

#[test]
fn block_size_is_16k() {
    assert_eq!(BLOCK_SIZE, 16 * 1024);
}

#[test]
fn piece_length_ranges() {
    assert_eq!(piece_length_for_size(0), 64 * KB as u32);
    assert_eq!(piece_length_for_size(KB), KB as u32);
    assert_eq!(piece_length_for_size(64 * KB), 64 * KB as u32);

    assert_eq!(piece_length_for_size(128 * MB), 64 * KB as u32);
    assert_eq!(piece_length_for_size(256 * MB), 128 * KB as u32);
    assert_eq!(piece_length_for_size(512 * MB), 256 * KB as u32);
    assert_eq!(piece_length_for_size(GB), 512 * KB as u32);
    assert_eq!(piece_length_for_size(2 * GB), 1 * MB as u32);
    assert_eq!(piece_length_for_size(16 * GB), 8 * MB as u32);
    assert_eq!(piece_length_for_size(128 * GB), 64 * MB as u32);
    assert_eq!(piece_length_for_size(512 * GB), 256 * MB as u32);

    assert_eq!(piece_length_for_size(1024 * GB), 1024 * MB as u32);
}

#[test]
fn piece_length_always_multiple_of_block_size() {
    for size in [1u64, KB, 64 * KB, MB, 256 * MB, GB, 16 * GB, 1024 * GB] {
        let pl = piece_length_for_size(size);
        if size >= BLOCK_SIZE as u64 {
            assert_eq!(pl % BLOCK_SIZE, 0, "size={size} pl={pl} is not a multiple of BLOCK_SIZE");
        }
    }
}

#[test]
fn piece_length_never_exceeds_file_size() {
    for size in [1u64, 100, 999, 16 * KB - 1] {
        let pl = piece_length_for_size(size);
        assert!(pl as u64 <= size, "size={size} pl={pl}");
    }
}

#[test]
fn num_pieces_correct() {
    let pl = 64 * 1024u32;
    assert_eq!(num_pieces(0, pl), 0);
    assert_eq!(num_pieces(pl as u64, pl), 1);
    assert_eq!(num_pieces(pl as u64 + 1, pl), 2);
    assert_eq!(num_pieces(2 * pl as u64, pl), 2);
}

#[test]
fn last_piece_length_correct() {
    let size = 5 * MB as u64;
    let f = FileEntry::new(vec!["a.bin".into()], size, Priority::Normal);
    assert_eq!(f.piece_length(), 64 * KB as u32);
    assert_eq!(f.num_pieces(), 80);
    assert_eq!(f.last_piece_length(), 64 * KB as u32);
}

#[test]
fn last_piece_shorter_when_not_multiple() {
    let size = 5 * MB as u64 + 1;
    let f = FileEntry::new(vec!["a.bin".into()], size, Priority::Normal);
    assert_eq!(f.num_pieces(), 81);
    assert_eq!(f.last_piece_length(), 1);
}

#[test]
fn file_exact_multiple_of_piece() {
    let size = 256 * KB as u64;
    let f = FileEntry::new(vec!["a.bin".into()], size, Priority::Normal);
    assert_eq!(f.last_piece_length(), f.piece_length());
}

fn make_13_file_meta() -> Metainfo {
    let specs: &[(&[&str], u64, Priority)] = &[
        (&["readme.txt"], 1, Maximum),
        (&["docs", "CHANGELOG.md"], 100, VeryHigh),
        (&["config.toml"], 512, Higher),
        (&["assets", "icon.png"], 16 * KB, High),
        (&["data", "sample.bin"], 64 * KB, Normal),
        (&["cache", "index.bin"], 64 * KB + 1, Low),
        (&["src", "bundle.js"], MB, Lower),
        (&["dist", "app.wasm"], 5 * MB, VeryLow),
        (&["dist", "app.wasm.map"], 5 * MB + 999, Minimum),
        (&["video", "intro.mp4"], 128 * MB, Maximum),
        (&["video", "main.mp4"], 256 * MB + 1, VeryHigh),
        (&["backup", "snapshot.tar"], GB, Higher),
        (&["media", "archive", "full.tar.gz"], 2 * GB, High),
    ];

    let files: Vec<FileEntry> = specs
        .iter()
        .map(|(path, size, prio)| FileEntry::new(path.iter().map(|s| s.to_string()).collect(), *size, *prio))
        .collect();

    let mut meta = Metainfo {
        name: "test-multifile-flow".into(),
        info_hash: [0u8; 32],
        files,
        trackers: vec![
            "https://tracker.example.com/announce".into(),
            "udp://tracker2.example.com:6969/announce".into(),
        ],
        tracker_tiers: vec![],
        comment: Some("test flow: 13 files with varied properties".into()),
    };
    meta.info_hash = meta.compute_info_hash();
    meta
}

#[test]
fn multifile_13_count() {
    assert_eq!(make_13_file_meta().files.len(), 13);
}

#[test]
fn multifile_13_all_nine_priorities_present() {
    let meta = make_13_file_meta();
    let unique: HashSet<u8> = meta.files.iter().map(|f| f.priority.as_u8()).collect();
    assert_eq!(unique.len(), 9, "all nine priority levels are present");
}

#[test]
fn multifile_13_priority_per_file() {
    let meta = make_13_file_meta();
    let expected = [
        Maximum, VeryHigh, Higher, High, Normal, Low, Lower, VeryLow, Minimum, Maximum, VeryHigh, Higher, High,
    ];
    for (fi, (&exp, file)) in expected.iter().zip(meta.files.iter()).enumerate() {
        assert_eq!(file.priority, exp, "fi={fi}");
    }
}

#[test]
fn multifile_13_total_size() {
    let expected = 1
        + 100
        + 512
        + 16 * KB
        + 64 * KB
        + (64 * KB + 1)
        + MB
        + 5 * MB
        + (5 * MB + 999)
        + 128 * MB
        + (256 * MB + 1)
        + GB
        + 2 * GB;
    assert_eq!(make_13_file_meta().total_size(), expected);
}

#[test]
fn multifile_13_piece_lengths() {
    let meta = make_13_file_meta();
    assert_eq!(meta.files[3].piece_length(), 16 * KB as u32);
    for fi in 4..=9 {
        assert_eq!(meta.files[fi].piece_length(), 64 * KB as u32, "fi={fi}");
    }
    assert_eq!(meta.files[10].piece_length(), 128 * KB as u32);
    assert_eq!(meta.files[11].piece_length(), 512 * KB as u32);
    assert_eq!(meta.files[12].piece_length(), MB as u32);
}

#[test]
fn multifile_13_last_piece_lengths() {
    let meta = make_13_file_meta();
    assert_eq!(meta.files[4].last_piece_length(), 64 * KB as u32);
    assert_eq!(meta.files[5].last_piece_length(), 1);
    assert_eq!(meta.files[8].last_piece_length(), 999);
    assert_eq!(meta.files[10].last_piece_length(), 1);
}

#[test]
fn multifile_13_total_pieces_matches_sum() {
    let meta = make_13_file_meta();
    let sum: u64 = meta.files.iter().map(|f| f.num_pieces() as u64).sum();
    assert_eq!(meta.total_pieces(), sum);
}

#[test]
fn multifile_13_num_pieces_per_file() {
    let meta = make_13_file_meta();
    assert_eq!(meta.files[4].num_pieces(), 1);
    assert_eq!(meta.files[5].num_pieces(), 2);
    assert_eq!(meta.files[7].num_pieces(), 80);
    assert_eq!(meta.files[8].num_pieces(), 81);
    assert_eq!(meta.files[10].num_pieces(), 2049);
}

#[test]
fn multifile_13_info_hash_deterministic() {
    let m1 = make_13_file_meta();
    let m2 = make_13_file_meta();
    assert_eq!(m1.info_hash, m2.info_hash);
    assert_ne!(m1.info_hash, [0u8; 32]);
}

#[test]
fn multifile_13_info_hash_changes_on_modification() {
    let mut meta = make_13_file_meta();
    let original = meta.info_hash;
    meta.files[4].piece_hashes[0] = [0xFFu8; 32];
    meta.info_hash = meta.compute_info_hash();
    assert_ne!(meta.info_hash, original);
}

#[test]
fn multifile_13_nested_paths_preserved() {
    let meta = make_13_file_meta();
    assert_eq!(meta.files[1].path, vec!["docs", "CHANGELOG.md"]);
    assert_eq!(meta.files[10].path, vec!["video", "main.mp4"]);
    assert_eq!(meta.files[12].path, vec!["media", "archive", "full.tar.gz"]);
}

#[test]
fn effective_tiers_uses_tracker_tiers_when_present() {
    let meta = Metainfo {
        name: "test".into(),
        info_hash: [0u8; 32],
        files: vec![],
        trackers: vec!["flat://old".into()],
        tracker_tiers: vec![vec!["tier0a".into(), "tier0b".into()], vec!["tier1a".into()]],
        comment: None,
    };
    let tiers = meta.effective_tiers();
    assert_eq!(tiers.len(), 2);
    assert_eq!(tiers[0], vec!["tier0a", "tier0b"]);
    assert_eq!(tiers[1], vec!["tier1a"]);
}

#[test]
fn effective_tiers_falls_back_to_flat_trackers() {
    let meta = Metainfo {
        name: "test".into(),
        info_hash: [0u8; 32],
        files: vec![],
        trackers: vec!["tracker1".into(), "tracker2".into()],
        tracker_tiers: vec![],
        comment: None,
    };
    let tiers = meta.effective_tiers();
    assert_eq!(tiers.len(), 2);
    assert_eq!(tiers[0], vec!["tracker1"]);
    assert_eq!(tiers[1], vec!["tracker2"]);
}

#[test]
fn effective_tiers_empty_when_no_trackers() {
    let meta = Metainfo {
        name: "test".into(),
        info_hash: [0u8; 32],
        files: vec![],
        trackers: vec![],
        tracker_tiers: vec![],
        comment: None,
    };
    assert!(meta.effective_tiers().is_empty());
}

#[test]
fn new_file_entry_has_zero_hashes_per_piece() {
    let f = FileEntry::new(vec!["x".into()], 3 * 64 * KB, Priority::Low);
    assert_eq!(f.piece_hashes, vec![[0u8; 32]; 3]);
    assert_eq!(f.priority, Priority::Low);
    let empty = FileEntry::new(vec!["e".into()], 0, Priority::Normal);
    assert_eq!(empty.num_pieces(), 0);
    assert_eq!(empty.last_piece_length(), 0);
}

#[test]
fn piece_len_of_each_piece() {
    let f = FileEntry::new(vec!["a".into()], 64 * KB + 10, Priority::Normal);
    assert_eq!(f.piece_len(0), 64 * KB as u32);
    assert_eq!(f.piece_len(1), 10);
}

#[test]
fn about_2048_pieces_per_file() {
    for size in [128 * MB, 300 * MB, GB + 7, 100 * GB, 1023 * GB] {
        let pl = piece_length_for_size(size);
        let n = num_pieces(size, pl);
        assert!(n > 1024 && n <= 2049, "size={size} n={n}");
    }
}

#[test]
fn file_root_of_two_pieces() {
    let mut f = FileEntry::new(vec!["a".into()], 2 * 64 * KB, Priority::Normal);
    f.piece_hashes[0] = [1u8; 32];
    f.piece_hashes[1] = [2u8; 32];
    assert_eq!(f.file_root(), merkle_parent(&[1u8; 32], &[2u8; 32]));
}

#[test]
fn piece_lengths_add_up_to_the_file() {
    for size in [1u64, 100, 65535, 65536, 65537, 5 * MB + 1, 300 * MB + 12345] {
        let e = FileEntry::new(vec!["f".into()], size, Priority::Normal);
        let n = e.num_pieces();
        let total: u64 = (0..n).map(|i| e.piece_len(i) as u64).sum();
        assert_eq!(total, size);
        let last = e.last_piece_length();
        assert!(0 < last && last <= e.piece_length());
        assert_eq!((n as u64 - 1) * e.piece_length() as u64 + last as u64, size);
    }
    let empty = FileEntry::new(vec!["e".into()], 0, Priority::Normal);
    assert_eq!(empty.num_pieces(), 0);
    assert_eq!(empty.last_piece_length(), 0);
}

#[test]
fn piece_length_grows_with_size() {
    let sizes = [1u64, 999, 65535, 65536, 10 * MB, 128 * MB, 129 * MB, GB, 3 * GB, 1 << 40, 1 << 41];
    for w in sizes.windows(2) {
        assert!(piece_length_for_size(w[0]) <= piece_length_for_size(w[1]));
    }
    for small in [1u64, 100, 999, 1024, 16383, 65535] {
        assert_eq!(piece_length_for_size(small), small as u32);
    }
}
