//! The parse into literals and back references.

use mucas::lz::{LzAnalysis, LzEncoder, LzToken, MAX_MATCH, MIN_MATCH, WINDOW_SIZE};

fn enc() -> LzEncoder {
    LzEncoder::new()
}

fn ratio(a: &LzAnalysis) -> f64 {
    if a.input_len == 0 {
        return 1.0;
    }
    a.to_program().len() as f64 / a.input_len as f64
}

// --- Round-trip correctness ---

#[test]
fn lz_hello_repeat_round_trip() {
    let data: Vec<u8> = b"Hello ".repeat(1000);
    let a = enc().analyze(&data);
    assert!(a.verify_round_trip(&data), "round-trip failed");
}

#[test]
fn log_line_round_trip() {
    let line = b"2024-01-01T00:00:00Z INFO  server: request processed ok\n";
    let data: Vec<u8> = line.repeat(500);
    let a = enc().analyze(&data);
    assert!(a.verify_round_trip(&data));
}

#[test]
fn short_input_round_trip() {
    for s in [b"".as_slice(), b"x", b"ab", b"abc", b"abcd", b"Hello, world!"] {
        let a = enc().analyze(s);
        assert!(a.verify_round_trip(s), "failed on {:?}", s);
    }
}

#[test]
fn all_unique_bytes_round_trip() {
    let data: Vec<u8> = (0u8..=255).collect();
    let a = enc().analyze(&data);
    assert!(a.verify_round_trip(&data));
    assert_eq!(a.match_count(), 0);
}

#[test]
fn tokens_cover_full_input() {
    for seed in [b"abcdefgh".repeat(200), b"xyzxyz".repeat(300)] {
        let a = enc().analyze(&seed);
        let covered: usize = a.tokens.iter().map(|t| t.len()).sum();
        assert_eq!(covered, seed.len(), "coverage mismatch");
    }
}

// --- Compression quality ---

#[test]
fn hello_repeat_compresses_well() {
    let data: Vec<u8> = b"Hello ".repeat(1000);
    let a = enc().analyze(&data);
    assert!(ratio(&a) < 0.10, "ratio = {:.1}%", ratio(&a) * 100.0);
}

#[test]
fn log_line_compresses_well() {
    let line = b"2024-01-01T00:00:00Z INFO  server: request processed ok\n";
    let data: Vec<u8> = line.repeat(500);
    let a = enc().analyze(&data);
    assert!(ratio(&a) < 0.10, "ratio = {:.1}%", ratio(&a) * 100.0);
}

// --- Overlap / run-length via CPY ---

#[test]
fn run_length_via_overlap_cpy() {
    let data: Vec<u8> = vec![b'a'; 1000];
    let a = enc().analyze(&data);
    assert!(a.verify_round_trip(&data));
    assert!(ratio(&a) < 0.02, "ratio = {:.1}%", ratio(&a) * 100.0);
}

// --- Regions ---

#[test]
fn match_regions_have_valid_geometry() {
    let data: Vec<u8> = b"xyzxyzxyz".repeat(100);
    let a = enc().analyze(&data);
    for (start, offset, length) in a.match_regions() {
        assert!(offset >= 1, "zero offset at {start}");
        assert!(offset <= WINDOW_SIZE, "offset exceeds window");
        assert!(length >= MIN_MATCH, "match below min");
        assert!(start >= offset, "source before start of input");
        assert!(start + length <= data.len(), "match past end of input");
    }
}

#[test]
fn literal_and_match_fractions_sum_to_one() {
    let data: Vec<u8> = b"Hello world! ".repeat(300);
    let a = enc().analyze(&data);
    let lit_bytes: usize = a.literal_regions().iter().map(|(s, e)| e - s).sum();
    let match_bytes: usize = a.match_regions().iter().map(|(_, _, l)| *l).sum();
    assert_eq!(lit_bytes + match_bytes, data.len());
    assert_eq!(a.literal_bytes(), lit_bytes);
}

// --- Exact parses ---

#[test]
fn a_run_is_one_byte_and_a_reference() {
    let a = enc().analyze(b"aaaaaaaaaa");
    assert_eq!(a.tokens.len(), 2);
    assert!(matches!(&a.tokens[0], LzToken::Literal { start: 0, data } if data == b"a"));
    assert!(matches!(a.tokens[1], LzToken::Match { start: 1, offset: 1, length: 9 }));
    assert_eq!(a.to_program(), vec![0x00, 0x01, b'a', 0x01, 0x01, 0x09]);
    assert_eq!(a.literal_regions(), vec![(0, 1)]);
    assert_eq!(a.match_regions(), vec![(1, 1, 9)]);
    assert_eq!(a.literal_count(), 1);
    assert_eq!(a.tokens[1].start(), 1);
    assert!(!a.tokens[1].is_empty());
}

#[test]
fn references_are_no_longer_than_the_limit() {
    let data = vec![7u8; 600];
    let a = enc().analyze(&data);
    assert!(a.match_regions().iter().all(|m| m.2 <= MAX_MATCH));
    assert_eq!(a.match_regions()[0], (1, 1, MAX_MATCH));
}

#[test]
fn an_empty_input_has_an_empty_parse() {
    let a = enc().analyze(b"");
    assert_eq!(a.tokens.len(), 0);
    assert_eq!(a.input_len, 0);
    assert!(a.to_program().is_empty());
}

#[test]
fn a_wrong_original_is_told_apart() {
    let a = enc().analyze(b"abcabcabcabc");
    assert!(!a.verify_round_trip(b"abcabcabcabd"));
}

#[test]
fn own_settings_still_restore() {
    let lz = LzEncoder { window: 16, min_match: 4, max_match: 8, max_chain: 2 };
    let data: Vec<u8> = b"the cat sat on the mat, the cat sat".repeat(4);
    let a = lz.analyze(&data);
    assert!(a.verify_round_trip(&data));
    assert!(a.match_regions().iter().all(|m| m.1 <= 16 && m.2 <= 8));
}
