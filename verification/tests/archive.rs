//! Archives and shared blocks.

use mucas::archive::{
    archive_summary, compress_archive, compress_entry_data, decode_entry, decompress_archive,
    decompress_entry, head_rest, list_archive, pack_by_class, parse_entry_head, pick_smallest, settle, ArchiveError, ArchiveReader,
    ArchiveWriter, Method, DEFAULT_MAX_MEMORY,
};
use mucas::consensus_builder::{
    encode_hash, estimate_ref_net_gain, keep, rank_candidates, takes_part, worthwhile,
    ConsensusBuilder, GAIN_THRESHOLD, MIN_FEED_SIZE, N_PATTERNS,
};
use mucas::format::{compress_zlib, MucasFile};
use mucas::judge::{byte_counts, Answers, Judge};
use mucas::pipeline::Pipeline;
use mucas::sched::DataClass;
use mucas::{Consensus, ProgramBuilder};

/// Answers by entropies and means in floating point.
struct Floats;

fn entropy(counts: &[usize], total: usize) -> f64 {
    if total == 0 {
        return 0.0;
    }
    counts
        .iter()
        .filter(|&&c| c > 0)
        .map(|&c| {
            let p = c as f64 / total as f64;
            -p * p.log2()
        })
        .sum()
}

impl Judge for Floats {
    fn answers(&self) -> Answers {
        unreachable!()
    }

    fn delta_saving(&self, data: &[u8], delta: &[u8]) -> isize {
        let before = entropy(&byte_counts(data), data.len());
        let after = entropy(&byte_counts(delta), delta.len());
        ((before - after) * data.len() as f64 / 8.0) as isize
    }

    fn near_random(&self, counts: &Vec<usize>, total: usize) -> bool {
        entropy(counts, total) > 7.5
    }

    fn lines_alike(&self, overlaps: &Vec<(usize, usize)>) -> bool {
        let total: f64 = overlaps.iter().map(|o| o.0 as f64 / o.1.max(1) as f64).sum();
        total / overlaps.len() as f64 > 0.6
    }

    fn worth_sharing(&self, counts: &Vec<usize>, total: usize) -> bool {
        entropy(counts, total) >= 2.5
    }
}

fn pattern_entropy(data: &[u8]) -> f64 {
    entropy(&byte_counts(data), data.len())
}

fn fake_jpeg() -> Vec<u8> {
    let mut v = vec![0xFF_u8, 0xD8, 0xFF, 0xE0];
    v.extend_from_slice(&[0xAB; 200]);
    v
}

fn csv_data() -> Vec<u8> {
    b"id,name,status\n1,alice,active\n2,bob,active\n3,carol,active\n"
        .iter()
        .cloned()
        .cycle()
        .take(3000)
        .collect()
}

fn prose_data() -> Vec<u8> {
    b"The quick brown fox jumps over the lazy dog. Pack my box. "
        .iter()
        .cloned()
        .cycle()
        .take(2000)
        .collect()
}

fn large_log() -> Vec<u8> {
    let mut data = Vec::new();
    let mut i = 0u32;
    while data.len() < 70_000 {
        data.extend_from_slice(
            format!("2024-01-01T00:00:00Z INFO  server: request {i} processed ok\n").as_bytes(),
        );
        i += 1;
    }
    data
}

fn round_trip(entries: &Vec<(String, Vec<u8>)>) -> Vec<(String, Vec<u8>)> {
    let enc = compress_archive(entries, &Floats);
    decompress_archive(&enc).unwrap()
}

// --- writer API ---

#[test]
fn archive_empty() {
    let enc = compress_archive(&vec![], &Floats);
    let dec = decompress_archive(&enc).unwrap();
    assert!(dec.is_empty());
}

#[test]
fn archive_roundtrip_store() {
    let jpeg = fake_jpeg();
    let entries = vec![("img/photo.jpg".to_string(), jpeg.clone())];
    let dec = round_trip(&entries);
    assert_eq!(dec[0].0, "img/photo.jpg");
    assert_eq!(dec[0].1, jpeg);
}

#[test]
fn archive_roundtrip_mucas() {
    let data = csv_data();
    let entries = vec![("data.csv".to_string(), data.clone())];
    let dec = round_trip(&entries);
    assert_eq!(dec[0].1, data, "μCAS round-trip failed");
}

#[test]
fn archive_roundtrip_zlib() {
    let data = prose_data();
    let entries = vec![("readme.txt".to_string(), data.clone())];
    let dec = round_trip(&entries);
    assert_eq!(dec[0].1, data, "Zlib round-trip failed");
}

#[test]
fn archive_roundtrip_mixed() {
    let entries: Vec<(String, Vec<u8>)> = vec![
        ("img/photo.jpg".to_string(), fake_jpeg()),
        ("data.csv".to_string(), csv_data()),
        ("readme.txt".to_string(), prose_data()),
    ];
    let orig: Vec<Vec<u8>> = entries.iter().map(|(_, d)| d.clone()).collect();
    let dec = round_trip(&entries);
    for (i, (path, bytes)) in dec.iter().enumerate() {
        assert_eq!(path, &entries[i].0, "path mismatch at {i}");
        assert_eq!(bytes, &orig[i], "data mismatch at {i}");
    }
}

#[test]
fn archive_rejects_bad_magic() {
    let mut enc = compress_archive(&vec![], &Floats);
    enc[0] = 0xFF;
    assert_eq!(decompress_archive(&enc).unwrap_err(), ArchiveError::BadMagic);
}

#[test]
fn archive_rejects_unsupported_version() {
    let mut enc = compress_archive(&vec![], &Floats);
    enc[4] = 0x02;
    assert_eq!(decompress_archive(&enc).unwrap_err(), ArchiveError::UnsupportedVersion(0x02));
}

#[test]
fn archive_summary_counts_methods() {
    let entries =
        vec![("img/photo.jpg".to_string(), fake_jpeg()), ("data.csv".to_string(), csv_data())];
    let enc = compress_archive(&entries, &Floats);
    let s = archive_summary(&enc).unwrap();
    assert_eq!(s.file_count, 2);
    assert_eq!(s.store_count, 1);
    assert!(s.total_compressed < s.total_original);
}

#[test]
fn archive_preserves_entry_order() {
    let entries: Vec<(String, Vec<u8>)> =
        (0u8..10).map(|i| (format!("file{i}.csv"), csv_data())).collect();
    let dec = round_trip(&entries);
    for (i, (path, _)) in dec.iter().enumerate() {
        assert_eq!(path, &format!("file{i}.csv"));
    }
}

// --- ArchiveWriter / ArchiveReader ---

#[test]
fn writer_count_mismatch_errors() {
    let mut w = ArchiveWriter::new(2);
    w.add_file_bytes("a.txt", b"hello", &Floats);
    let err = w.finish().unwrap_err();
    assert!(err.describe().contains("mismatch"));
    assert_eq!(err, ArchiveError::CountMismatch { expected: 2, actual: 1 });
}

#[test]
fn reader_yields_entries_in_order() {
    let entries: Vec<(String, Vec<u8>)> =
        vec![("a.csv".to_string(), csv_data()), ("b.txt".to_string(), prose_data())];
    let enc = compress_archive(&entries, &Floats);
    let mut r = ArchiveReader::new(enc.as_slice()).unwrap();
    assert_eq!(r.entry_count(), 2);

    let e0 = r.next_entry().unwrap().unwrap();
    assert_eq!(e0.path, "a.csv");
    assert_eq!(e0.data, entries[0].1);

    let e1 = r.next_entry().unwrap().unwrap();
    assert_eq!(e1.path, "b.txt");
    assert_eq!(e1.data, entries[1].1);

    assert!(r.next_entry().unwrap().is_none());
}

#[test]
fn store_entry_written_to_writer_stats() {
    let mut w = ArchiveWriter::new(1);
    w.add_file_bytes("img.jpg", &fake_jpeg(), &Floats);
    assert_eq!(w.last_method, Some(Method::Store));
    assert_eq!(w.stats.store_count, 1);
    w.finish().unwrap();
}

#[test]
fn archive_bytes_are_laid_out() {
    let entries = vec![("a".to_string(), b"xy".to_vec())];
    let enc = compress_archive(&entries, &Floats);
    let mut expected = b"MCAR".to_vec();
    expected.extend_from_slice(&[1, 0, 1, 0, 0, 0]);
    expected.extend_from_slice(&[1, 0, b'a', 0]);
    expected.extend_from_slice(&[2, 0, 0, 0, 0, 0, 0, 0]);
    expected.extend_from_slice(&[2, 0, 0, 0]);
    expected.extend_from_slice(b"xy");
    assert_eq!(enc, expected);
}

#[test]
fn large_logs_are_packed_as_programs() {
    let data = large_log();
    let (method, packed) = compress_entry_data(&data, DEFAULT_MAX_MEMORY, &None, &Floats);
    assert_eq!(method, Method::MuCAS);
    assert!(packed.len() <= compress_zlib(&data).len());
    assert_eq!(decompress_entry(method, &packed, 0), Ok(data.clone()));

    let entries = vec![("big.log".to_string(), data)];
    let enc = compress_archive(&entries, &Floats);
    assert_eq!(archive_summary(&enc).unwrap().mucas_count, 1);
    assert_eq!(decompress_archive(&enc).unwrap(), entries);
}

#[test]
fn files_above_the_limit_are_stored() {
    let data = prose_data();
    let (method, packed) = compress_entry_data(&data, 100, &None, &Floats);
    assert_eq!((method, packed), (Method::Store, data));
    let w = ArchiveWriter::with_options(1, 100);
    assert!(w.stores_unread(101, false));
    assert!(w.stores_unread(5, true));
    assert!(!w.stores_unread(100, false));
    assert!(ArchiveWriter::new(1).stores_unread(1 << 33, false));
}

#[test]
fn stored_files_may_be_streamed() {
    let mut w = ArchiveWriter::new(1);
    w.begin_store("raw.bin", 3);
    let mut out = w.take_pending();
    out.extend_from_slice(b"abc");
    assert_eq!(w.stats.store_count, 1);
    out.extend(w.finish().unwrap());
    assert_eq!(decompress_archive(&out).unwrap(), vec![("raw.bin".to_string(), b"abc".to_vec())]);
}

#[test]
fn listing_tells_paths_and_sizes() {
    let entries =
        vec![("img/photo.jpg".to_string(), fake_jpeg()), ("été.txt".to_string(), prose_data())];
    let enc = compress_archive(&entries, &Floats);
    let infos = list_archive(&enc).unwrap();
    assert_eq!(infos.len(), 2);
    assert_eq!(infos[0].path, "img/photo.jpg");
    assert_eq!(infos[0].method, Method::Store);
    assert_eq!((infos[0].original_size, infos[0].compressed_size), (204, 204));
    assert_eq!(infos[1].path, "été.txt");
    assert_eq!(infos[1].method, Method::Zlib);
    assert_eq!(infos[1].original_size, 2000);
    assert_eq!(infos[1].compressed_size, compress_zlib(&prose_data()).len() as u64);

    let s = archive_summary(&enc).unwrap();
    assert_eq!((s.store_count, s.zlib_count, s.mucas_count), (1, 1, 0));
    assert_eq!(s.total_original, 2204);
    assert_eq!(s.total_compressed, 204 + infos[1].compressed_size);
}

#[test]
fn summary_agrees_with_the_writer() {
    let mut w = ArchiveWriter::new(2);
    w.add_file_bytes("p.txt", &prose_data(), &Floats);
    w.add_file_bytes("i.jpg", &fake_jpeg(), &Floats);
    let stats = w.stats;
    let s = archive_summary(&w.finish().unwrap()).unwrap();
    assert_eq!(s.total_original, stats.total_original);
    assert_eq!(s.total_compressed, stats.total_compressed);
    assert_eq!(s.zlib_count, stats.zlib_count);
    assert_eq!(s.store_count, stats.store_count);
}

#[test]
fn broken_archives_are_refused() {
    let enc = compress_archive(&vec![("a".to_string(), b"xy".to_vec())], &Floats);
    for cut in 0..enc.len() {
        assert_eq!(decompress_archive(&enc[..cut]).unwrap_err(), ArchiveError::TooShort);
    }
    // The listing steps over the packed bytes, and does not miss the last ones.
    assert_eq!(list_archive(&enc[..enc.len() - 1]).unwrap().len(), 1);
    assert_eq!(list_archive(&enc[..20]).err(), Some(ArchiveError::TooShort));
    assert_eq!(archive_summary(&enc[..20]).err(), Some(ArchiveError::TooShort));

    let mut odd = enc.clone();
    odd[13] = 7;
    assert_eq!(decompress_archive(&odd).unwrap_err(), ArchiveError::UnknownMethod(7));
    let mut odd = enc.clone();
    odd[12] = 0xFF;
    assert_eq!(decompress_archive(&odd).unwrap_err(), ArchiveError::InvalidPath(0));
    let mut odd = enc.clone();
    odd[13] = 1;
    assert_eq!(
        decompress_archive(&odd).unwrap_err(),
        ArchiveError::EntryDecompressFailed { index: 0 }
    );
    let mut odd = enc;
    odd[13] = 2;
    assert_eq!(
        decompress_archive(&odd).unwrap_err(),
        ArchiveError::MuCASDecompressFailed { index: 0 }
    );
}

#[test]
fn methods_have_bytes() {
    assert_eq!(Method::try_from(0), Ok(Method::Store));
    assert_eq!(Method::try_from(1), Ok(Method::Zlib));
    assert_eq!(Method::try_from(2), Ok(Method::MuCAS));
    assert_eq!(Method::try_from(3), Err(ArchiveError::UnknownMethod(3)));
    assert_eq!(Method::MuCAS.to_byte(), 2);
}

#[test]
fn the_smallest_packing_is_chosen() {
    let data = vec![0u8; 10];
    let zlib = vec![1u8; 6];
    assert_eq!(pick_smallest(&data, None, zlib.clone()), (Method::Zlib, zlib.clone()));
    assert_eq!(
        pick_smallest(&data, Some(vec![2; 6]), zlib.clone()),
        (Method::MuCAS, vec![2; 6])
    );
    assert_eq!(pick_smallest(&data, Some(vec![2; 7]), zlib.clone()), (Method::Zlib, zlib));
    assert_eq!(pick_smallest(&data, None, vec![1; 10]), (Method::Store, data.clone()));

    assert_eq!(pack_by_class(&data, DataClass::Binary, None), (Method::Store, data.clone()));
    assert_eq!(
        pack_by_class(&data, DataClass::StructuredLog, Some(vec![3])),
        (Method::MuCAS, vec![3])
    );
    assert_eq!(settle(&data, 5, false, false), Some((Method::Store, data.clone())));
    assert_eq!(settle(&data, 50, false, true), Some((Method::Store, data.clone())));
    assert_eq!(settle(&data, 50, true, false), None);
}

#[test]
fn entries_run_against_their_own_blocks() {
    let mut consensus = Consensus::new();
    consensus.insert(vec![4], b"shared".to_vec());
    let (prog, subs) = ProgramBuilder::new().ref_(&[4]).lit(b"!").build();
    let file = MucasFile::new_with_consensus(prog, subs, consensus).encode();
    assert_eq!(decompress_entry(Method::MuCAS, &file, 0), Ok(b"shared!".to_vec()));
}

// --- shared blocks ---

#[test]
fn empty_feed_yields_empty_consensus() {
    let b = ConsensusBuilder::new();
    assert!(b.build(&Floats).is_empty());
}

#[test]
fn single_file_below_coverage_threshold() {
    let mut b = ConsensusBuilder::new();
    b.feed(b"LOGENTRY: 2024-01-01 some structured log data here!!");
    assert!(b.build(&Floats).is_empty(), "single-file feed must not produce consensus");
}

#[test]
fn two_files_with_shared_pattern_yield_consensus() {
    let pattern = b"STRUCTURED_LOG_ENTRY_PREFIX:".repeat(3);
    let shared = &pattern[..16];
    let data1: Vec<u8> = shared.iter().cloned().cycle().take(512).collect();
    let data2: Vec<u8> = shared.iter().cloned().cycle().take(512).collect();

    let mut b = ConsensusBuilder::new();
    b.feed(&data1);
    b.feed(&data2);
    let c = b.build(&Floats);
    assert!(!c.is_empty(), "two files with shared 16-byte pattern must produce consensus");
}

#[test]
fn entropy_filter_rejects_low_entropy_patterns() {
    let zeros: Vec<u8> = vec![0u8; 64];
    let mut b = ConsensusBuilder::new();
    b.feed(&zeros);
    b.feed(&zeros);
    b.feed(&zeros);
    assert!(b.build(&Floats).is_empty(), "all-zero pattern must be filtered by entropy");
}

#[test]
fn pattern_entropy_sanity() {
    assert!(pattern_entropy(&[0u8; 8]) < 0.01);
    let hi: Vec<u8> = (0u8..=255).collect();
    assert!(pattern_entropy(&hi) > 7.9);
}

#[test]
fn build_returns_at_most_n_patterns() {
    let mut b = ConsensusBuilder::new();
    for _ in 0..5 {
        let mut data: Vec<u8> = Vec::new();
        for i in 0u8..60 {
            data.push(i);
            data.push(i ^ 0xAA);
            data.push(i ^ 0x55);
            data.push(i ^ 0x33);
            data.push(i ^ 0xCC);
            data.push(i ^ 0xFF);
            data.push(0x01);
            data.push(0x02);
        }
        b.feed(&data);
    }
    let c = b.build(&Floats);
    assert!(c.len() <= N_PATTERNS, "consensus must not exceed N_PATTERNS={N_PATTERNS}");
}

#[test]
fn empty_consensus_has_negative_net_gain() {
    let c = Consensus::new();
    assert!(estimate_ref_net_gain(&c, 10) < 0);
    assert_eq!(estimate_ref_net_gain(&c, 10), -8);
}

#[test]
fn single_short_pattern_few_files_is_negative() {
    let mut c = Consensus::new();
    c.insert(vec![0x00], b"ABCDEFGH".to_vec());
    let net = estimate_ref_net_gain(&c, 3);
    assert!(net < 0, "short pattern in few files should be net-negative, got {net}");
    assert_eq!(net, -7);
}

#[test]
fn large_pattern_many_files_exceeds_threshold() {
    let mut c = Consensus::new();
    c.insert(vec![0x00], (0u8..64).collect::<Vec<u8>>());
    let net = estimate_ref_net_gain(&c, 40);
    assert!(net >= GAIN_THRESHOLD, "64B pattern × 40 files should exceed threshold, got {net}");
    assert_eq!(net, 2362);
}

#[test]
fn estimate_matches_observed_corpus_order_of_magnitude() {
    let mut c = Consensus::new();
    for i in 0u8..18 {
        c.insert(vec![i], (0u8..64).collect::<Vec<u8>>());
    }
    for i in 18u8..50 {
        c.insert(vec![i], (0u8..32).collect::<Vec<u8>>());
    }
    let net = estimate_ref_net_gain(&c, 40);
    assert!(
        net >= GAIN_THRESHOLD,
        "corpus-like consensus should exceed threshold, got {net}"
    );
    assert!(net > 7000, "estimate should be above observed gain, got {net}");
}

#[test]
fn keys_are_numbers() {
    assert_eq!(encode_hash(0), vec![0]);
    assert_eq!(encode_hash(254), vec![254]);
    assert_eq!(encode_hash(255), vec![0xFF, 0]);
    assert_eq!(encode_hash(260), vec![0xFF, 5]);
    let mut keys: Vec<Vec<u8>> = (0..511).map(encode_hash).collect();
    keys.sort();
    keys.dedup();
    assert_eq!(keys.len(), 511);
}

#[test]
fn blocks_are_counted_once_per_file() {
    let mut b = ConsensusBuilder::new();
    b.feed(&b"abcdefgh".repeat(4));
    b.feed(b"abcdefgh");
    b.feed(b"");
    assert_eq!(b.files_seen(), 2);
    let frequent = b.frequent();
    assert_eq!(frequent, vec![(b"abcdefgh".to_vec(), 2)]);
}

#[test]
fn candidates_rank_by_files_and_length() {
    let c = vec![
        (b"short".to_vec(), 3),
        (b"much longer".to_vec(), 3),
        (b"rare".to_vec(), 2),
        (b"everywhere".to_vec(), 9),
    ];
    let kept = keep(&c, &vec![true, true, false, true]);
    assert_eq!(kept.len(), 3);
    let table = rank_candidates(&kept);
    assert_eq!(table.get(&[0]), Some(&b"everywhere".to_vec()));
    assert_eq!(table.get(&[1]), Some(&b"much longer".to_vec()));
    assert_eq!(table.get(&[2]), Some(&b"short".to_vec()));
    assert_eq!(table.len(), 3);
}

#[test]
fn tables_must_gain_enough() {
    let mut c = Consensus::new();
    c.insert(vec![0x00], (0u8..64).collect::<Vec<u8>>());
    assert_eq!(worthwhile(c.clone(), 40).len(), 1);
    assert!(worthwhile(c, 2).is_empty());
}

#[test]
fn only_large_files_take_part() {
    assert!(takes_part(false, MIN_FEED_SIZE as u64 + 1, DEFAULT_MAX_MEMORY));
    assert!(!takes_part(false, MIN_FEED_SIZE as u64, DEFAULT_MAX_MEMORY));
    assert!(!takes_part(true, MIN_FEED_SIZE as u64 + 1, DEFAULT_MAX_MEMORY));
    assert!(!takes_part(false, MIN_FEED_SIZE as u64 + 1, MIN_FEED_SIZE));
}

#[test]
fn entries_with_shared_blocks_unpack() {
    let block = b"(the very same sixty-four bytes in each and every one of them..)".to_vec();
    let mut shared = Consensus::new();
    shared.insert(vec![0], block.clone());
    let mut data = Vec::new();
    for i in 0u32..40 {
        data.extend_from_slice(format!("{i}:{}", i.wrapping_mul(2_654_435_761)).as_bytes());
        data.extend_from_slice(&block);
    }
    let mut w = ArchiveWriter::with_consensus_options(1, DEFAULT_MAX_MEMORY, Some(shared));
    w.add_file_bytes("small.log", &data, &Floats);
    let out = w.finish().unwrap();
    assert_eq!(decompress_archive(&out).unwrap(), vec![("small.log".to_string(), data)]);
}

#[test]
fn reading_step_by_step_gives_the_same_files() {
    let entries: Vec<(String, Vec<u8>)> = vec![
        ("a.csv".to_string(), csv_data()),
        ("empty".to_string(), Vec::new()),
        ("c.jpg".to_string(), fake_jpeg()),
    ];
    let enc = compress_archive(&entries, &Floats);
    let mut reader = ArchiveReader::new(&enc).unwrap();
    let mut read = Vec::new();
    while let Some(e) = reader.next_entry().unwrap() {
        read.push((e.path, e.data));
    }
    assert_eq!(read, decompress_archive(&enc).unwrap());

    let cut = &enc[..enc.len() - 1];
    let mut reader = ArchiveReader::new(cut).unwrap();
    assert!(reader.next_entry().unwrap().is_some());
    assert!(reader.next_entry().unwrap().is_some());
    let err = match reader.next_entry() {
        Err(e) => e,
        Ok(_) => panic!("the last entry is cut"),
    };
    assert_eq!(decompress_archive(cut).unwrap_err(), err);
}

#[test]
fn the_writer_counts_every_entry() {
    let mut w = ArchiveWriter::new(3);
    w.add_file_bytes("a.csv", &csv_data(), &Floats);
    w.add_file_bytes("b.txt", &prose_data(), &Floats);
    w.add_file_bytes("c.jpg", &fake_jpeg(), &Floats);
    let sizes = csv_data().len() + prose_data().len() + fake_jpeg().len();
    assert_eq!(w.stats.total_original, sizes as u64);
    assert_eq!(w.stats.store_count + w.stats.zlib_count + w.stats.mucas_count, 3);
    let enc = w.finish().unwrap();
    let infos = list_archive(&enc).unwrap();
    let s = archive_summary(&enc).unwrap();
    assert_eq!(s.file_count, infos.len());
    assert_eq!(s.store_count + s.zlib_count + s.mucas_count, s.file_count);
    assert_eq!(s.total_original, infos.iter().map(|i| i.original_size).sum::<u64>());
    assert_eq!(s.total_compressed, infos.iter().map(|i| i.compressed_size).sum::<u64>());
}

#[test]
fn archive_errors_have_messages() {
    let cases = [
        (ArchiveError::TooShort, "archive too short"),
        (ArchiveError::BadMagic, "not a .mcar archive (bad magic)"),
        (ArchiveError::UnsupportedVersion(0x0A), "unsupported .mcar version 0x0A"),
        (ArchiveError::UnknownMethod(207), "unknown compression method 207"),
        (ArchiveError::InvalidPath(12), "entry 12: path is not valid UTF-8"),
        (ArchiveError::EntryDecompressFailed { index: 0 }, "entry 0: zlib decompression failed"),
        (
            ArchiveError::MuCASDecompressFailed { index: 9 },
            "entry 9: \u{3bc}CAS decode/execute failed",
        ),
        (
            ArchiveError::CountMismatch { expected: 2, actual: 4294967295 },
            "entry count mismatch: header said 2, wrote 4294967295",
        ),
    ];
    for (error, message) in cases {
        assert_eq!(error.describe(), message);
    }
}

#[test]
fn reading_goes_on_behind_a_bad_entry() {
    let entries: Vec<(String, Vec<u8>)> = vec![
        ("a".to_string(), fake_jpeg()),
        ("b".to_string(), prose_data()),
        ("c".to_string(), fake_jpeg()),
    ];
    let mut enc = compress_archive(&entries, &Floats);
    let infos = list_archive(&enc).unwrap();
    assert_eq!(infos[1].method, Method::Zlib);
    let second = 10 + 16 + infos[0].compressed_size as usize;
    enc[second + 16] ^= 0xFF;
    let mut r = ArchiveReader::new(&enc).unwrap();
    assert_eq!(r.next_entry().unwrap().unwrap().path, "a");
    assert!(matches!(r.next_entry(), Err(ArchiveError::EntryDecompressFailed { index: 1 })));
    assert_eq!(r.next_entry().unwrap().unwrap().path, "c");
    assert!(matches!(r.next_entry(), Err(ArchiveError::TooShort)));
}

#[test]
fn entries_hold_the_program_of_the_pipeline() {
    let data = large_log();
    let (method, packed) = compress_entry_data(&data, DEFAULT_MAX_MEMORY, &None, &Floats);
    assert_eq!(method, Method::MuCAS);
    let (prog, class) = Pipeline::new().compress(&data, &Floats);
    assert_eq!(class, DataClass::StructuredLog);
    let (code, subs) = prog.to_bytes();
    assert_eq!(packed, MucasFile::new(code, subs).encode());
}

#[test]
fn heads_and_entries_are_read_in_parts() {
    assert_eq!(head_rest(&[3]), Err(ArchiveError::TooShort));
    assert_eq!(head_rest(&[3, 1]), Ok(259 + 13));
    let (info, at) = parse_entry_head(&[1, 0, b'p', 0, 2, 0, 0, 0, 0, 0, 0, 0, 2, 0, 0, 0], 0, 5)
        .unwrap();
    assert_eq!(at, 16);
    let e = decode_entry(info, b"xyz", 5).unwrap();
    assert_eq!((e.path.as_str(), e.method, e.data), ("p", Method::Store, b"xy".to_vec()));
    let (info, _) = parse_entry_head(&[1, 0, b'p', 0, 2, 0, 0, 0, 0, 0, 0, 0, 2, 0, 0, 0], 0, 5)
        .unwrap();
    assert!(matches!(decode_entry(info, b"x", 5), Err(ArchiveError::TooShort)));
}
