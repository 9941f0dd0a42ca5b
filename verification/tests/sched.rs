//! Telling kinds of data apart, and the two compressors built on it.

use mucas::judge::{byte_counts, Answers, Constant, Judge};
use mucas::lz::LzEncoder;
use mucas::machine::MAX_OUTPUT_BYTES;
use mucas::pipeline::Pipeline;
use mucas::sched::{
    adjacent_overlaps, classify, classify_with_data, gram_overlap, is_already_compressed,
    synthesizer_for, utf8_counts, AdaptiveScheduler, ClassMetrics, DataClass,
};

/// Answers by entropies and means in floating point.
struct Floats;

fn entropy(counts: &[usize], total: usize) -> f64 {
    if total == 0 {
        return 0.0;
    }
    counts
        .iter()
        .filter(|&&c| c > 0)
        .map(|&c| {
            let p = c as f64 / total as f64;
            -p * p.log2()
        })
        .sum()
}

fn mean(overlaps: &[(usize, usize)]) -> f64 {
    if overlaps.is_empty() {
        return 0.0;
    }
    let total: f64 = overlaps
        .iter()
        .map(|&(common, distinct)| {
            if distinct == 0 { 1.0 } else { common as f64 / distinct as f64 }
        })
        .sum();
    total / overlaps.len() as f64
}

impl Judge for Floats {
    fn answers(&self) -> Answers {
        unreachable!()
    }

    fn delta_saving(&self, data: &[u8], delta: &[u8]) -> isize {
        let before = entropy(&byte_counts(data), data.len());
        let after = entropy(&byte_counts(delta), delta.len());
        ((before - after) * data.len() as f64 / 8.0) as isize
    }

    fn near_random(&self, counts: &Vec<usize>, total: usize) -> bool {
        entropy(counts, total) > 7.5
    }

    fn lines_alike(&self, overlaps: &Vec<(usize, usize)>) -> bool {
        mean(overlaps) > 0.6
    }

    fn worth_sharing(&self, counts: &Vec<usize>, total: usize) -> bool {
        entropy(counts, total) >= 2.5
    }
}

fn metrics(data: &[u8]) -> ClassMetrics {
    let a = LzEncoder::new().analyze(data);
    ClassMetrics::compute(data, &a, &Floats)
}

fn line_similarity(data: &[u8]) -> f64 {
    mean(&adjacent_overlaps(data))
}

fn pipeline() -> Pipeline {
    Pipeline::new()
}

fn log_data() -> Vec<u8> {
    b"2024-01-01T00:00:00Z INFO  server: request processed ok\n".repeat(200)
}

// --- line similarity ---

#[test]
fn identical_lines_have_high_similarity() {
    let line = b"2024-01-01T00:00:00Z INFO  server: request processed ok\n";
    let data: Vec<u8> = line.repeat(50);
    let sim = line_similarity(&data);
    assert!(sim > 0.90, "expected high similarity, got {sim:.3}");
}

#[test]
fn diverse_lines_have_low_similarity() {
    let data = b"The quick brown fox jumps over the lazy dog.\n\
                 Pack my box with five dozen liquor jugs.\n\
                 How vexingly quick daft zebras jump!\n\
                 The five boxing wizards jump quickly.\n"
        .repeat(5);
    let sim = line_similarity(&data);
    assert!(sim < 0.50, "expected low similarity, got {sim:.3}");
}

// --- classify ---

#[test]
fn classify_log_data() {
    let line = b"2024-01-01T00:00:00Z INFO  server: request processed ok\n";
    let data: Vec<u8> = line.repeat(200);
    let m = metrics(&data);
    let cls = classify(&m);
    assert_eq!(cls, DataClass::StructuredLog, "{m:?}");
}

#[test]
fn classify_binary_data() {
    let data: Vec<u8> = (0u8..=255).cycle().take(2048).collect();
    let m = metrics(&data);
    let cls = classify(&m);
    assert_eq!(cls, DataClass::Binary);
}

#[test]
fn classify_diverse_prose_not_structured_log() {
    let data = b"The quick brown fox jumps over the lazy dog.\n\
                 Pack my box with five dozen liquor jugs.\n\
                 How vexingly quick daft zebras jump!\n\
                 The five boxing wizards jump quickly.\n"
        .repeat(10);
    let cls = classify(&metrics(&data));
    assert_ne!(cls, DataClass::StructuredLog);
}

// --- AdaptiveScheduler round-trips ---

#[test]
fn scheduler_log_round_trip() {
    let line = b"2024-01-01T00:00:00Z INFO  server: request processed ok\n";
    let data: Vec<u8> = line.repeat(200);
    let (prog, class) = AdaptiveScheduler::new().compress(&data, &Floats);
    assert_eq!(class, DataClass::StructuredLog);
    assert!(prog.verify_round_trip(&data), "structured log round-trip failed");
}

#[test]
fn scheduler_binary_round_trip() {
    let data: Vec<u8> = (0u8..=255).cycle().take(2048).collect();
    let (prog, class) = AdaptiveScheduler::new().compress(&data, &Floats);
    assert_eq!(class, DataClass::Binary);
    assert!(prog.verify_round_trip(&data), "binary round-trip failed");
}

#[test]
fn scheduler_empty_round_trip() {
    let (prog, _) = AdaptiveScheduler::new().compress(&[], &Floats);
    assert!(prog.verify_round_trip(&[]));
}

// --- verbose output ---

#[test]
fn verbose_synth_does_not_degrade_log() {
    let line = b"2024-01-01T00:00:00Z INFO  server: request processed ok\n";
    let data: Vec<u8> = line.repeat(200);
    let r = AdaptiveScheduler::new().compress_verbose(&data, &Floats);
    let lz_ratio = r.lz_len as f64 / data.len() as f64;
    let synth_ratio = r.synth_len as f64 / data.len() as f64;
    let synth_gain = lz_ratio - synth_ratio;
    println!(
        "class={:?}  LZ={:.1}%  synth={:.1}%  gain={:+.1}%",
        r.data_class,
        lz_ratio * 100.0,
        synth_ratio * 100.0,
        synth_gain * 100.0,
    );
    assert!(synth_gain >= -0.005, "synthesizer degraded ratio by {:.2}%", -synth_gain * 100.0);
}

#[test]
fn verbose_binary_path_skips_synthesizer() {
    let data: Vec<u8> = (0u8..=255).cycle().take(2048).collect();
    let r = AdaptiveScheduler::new().compress_verbose(&data, &Floats);
    assert_eq!(r.data_class, DataClass::Binary);
    let synth_gain = (r.lz_len as f64 - r.synth_len as f64) / data.len() as f64;
    assert!(synth_gain.abs() < 1e-9, "expected no gain on binary path");
}

// --- UTF-8 text is not taken for binary data ---

#[test]
fn chinese_utf8_not_binary() {
    let text = "这是一段用于测试的中文文本，包含常见汉字和标点。\n".repeat(50);
    let (_, class) = pipeline().compress(text.as_bytes(), &Floats);
    assert_ne!(class, DataClass::Binary, "Chinese UTF-8 text must not be classified as Binary");
}

#[test]
fn random_bytes_still_binary() {
    let data: Vec<u8> = (0u8..=255).cycle().take(2048).collect();
    let (_, class) = pipeline().compress(&data, &Floats);
    assert_eq!(class, DataClass::Binary);
}

// --- synthesis of the raw data ---

#[test]
fn raw_synth_finds_loop_on_periodic_data() {
    let line = b"2024-01-01T00:00:00Z INFO  server: request processed ok\n";
    let data: Vec<u8> = line.repeat(200);
    let r = pipeline().compress_verbose(&data, &Floats);
    let lz_ratio = r.lz_len as f64 / data.len() as f64;
    let synth_ratio = r.synth_len as f64 / data.len() as f64;
    assert!(
        r.used_hybrid_path || synth_ratio < lz_ratio + 0.01,
        "expected hybrid path or at least no regression: hybrid={} synth={:.3} lz={:.3}",
        r.used_hybrid_path,
        synth_ratio,
        lz_ratio
    );
    assert!(r.program.verify_round_trip(&data), "round-trip failed");
}

// --- round-trips ---

#[test]
fn pipeline_log_round_trip() {
    let line = b"2024-01-01T00:00:00Z INFO  server: request processed ok\n";
    let data: Vec<u8> = line.repeat(200);
    let (prog, class) = pipeline().compress(&data, &Floats);
    assert_eq!(class, DataClass::StructuredLog);
    assert!(prog.verify_round_trip(&data));
}

#[test]
fn pipeline_binary_round_trip() {
    let data: Vec<u8> = (0u8..=255).cycle().take(2048).collect();
    let (prog, class) = pipeline().compress(&data, &Floats);
    assert_eq!(class, DataClass::Binary);
    assert!(prog.verify_round_trip(&data));
}

#[test]
fn pipeline_empty_round_trip() {
    let (prog, _) = pipeline().compress(&[], &Floats);
    assert!(prog.verify_round_trip(&[]));
}

#[test]
fn hybrid_dominates_raw_synth_on_structure_plus_repetition() {
    let mut data: Vec<u8> = b"PREFIX: ".repeat(40);
    data.extend_from_slice(&b"hello world ".repeat(30));
    let (prog, _) = pipeline().compress(&data, &Floats);
    assert!(prog.verify_round_trip(&data), "hybrid round-trip failed");
}

#[test]
fn hybrid_round_trip_mixed_data() {
    let line = b"2024-01-01T00:00:00Z INFO  server: request processed ok\n";
    let mut data: Vec<u8> = line.repeat(50);
    data.extend_from_slice(&b"abcdefgh".repeat(100));
    let (prog, _) = pipeline().compress(&data, &Floats);
    assert!(prog.verify_round_trip(&data));
}

#[test]
fn verbose_gain_non_negative_on_log() {
    let line = b"2024-01-01T00:00:00Z INFO  server: request processed ok\n";
    let data: Vec<u8> = line.repeat(200);
    let r = pipeline().compress_verbose(&data, &Floats);
    let synth_gain = (r.lz_len as f64 - r.synth_len as f64) / data.len() as f64;
    assert!(synth_gain >= -0.005, "synth regressed by {:.2}%", -synth_gain * 100.0);
}

// --- metrics and kinds ---

#[test]
fn compressed_formats_are_told_by_their_first_bytes() {
    assert!(is_already_compressed(&[0xFF, 0xD8, 0xFF, 0xE0, 1, 2]));
    assert!(is_already_compressed(&[0x89, b'P', b'N', b'G', 0x0D, 0x0A, 0x1A, 0x0A]));
    assert!(is_already_compressed(b"PK\x03\x04rest"));
    assert!(is_already_compressed(&[0x1F, 0x8B, 8, 0]));
    assert!(is_already_compressed(b"fLaC\x00\x00\x00\x22"));
    assert!(is_already_compressed(b"PACK\x00\x00\x00\x02"));
    assert!(!is_already_compressed(b"plain text"));
    assert!(!is_already_compressed(b""));
    let (_, class) = pipeline().compress(&[0x1F, 0x8B, 8, 0], &Floats);
    assert_eq!(class, DataClass::AlreadyCompressed);
}

#[test]
fn json_is_told_by_its_first_byte() {
    let data = b"[{\"a\": 1},\n{\"a\": 2}]\n".to_vec();
    assert_eq!(classify_with_data(&metrics(&data), &data), DataClass::JsonArray);
}

#[test]
fn characters_are_counted() {
    assert_eq!(utf8_counts("aé中".as_bytes()), (3, 3));
    assert_eq!(utf8_counts(&[b'a', 0xFF, b'b']), (2, 3));
    assert_eq!(utf8_counts(b""), (0, 0));
}

#[test]
fn substrings_of_four_bytes_are_compared() {
    assert_eq!(gram_overlap(b"abcde", b"abcdx"), (1, 3));
    assert_eq!(gram_overlap(b"abcd", b"abcd"), (1, 1));
    assert_eq!(adjacent_overlaps(b"abcd\nab\nabcd\n"), vec![(1, 1)]);
    assert!(adjacent_overlaps(b"one line only").is_empty());
}

#[test]
fn kinds_have_their_synthesizers() {
    let s = synthesizer_for(DataClass::UnstructuredText).unwrap();
    assert!(!s.enable_loop && !s.enable_macro && s.enable_map && !s.enable_scan);
    let s = synthesizer_for(DataClass::StructuredLog).unwrap();
    assert!(s.enable_loop && s.enable_macro && s.enable_map && s.enable_scan);
    assert!(synthesizer_for(DataClass::Binary).is_none());
    assert!(synthesizer_for(DataClass::AlreadyCompressed).is_none());
}

#[test]
fn metrics_of_a_log() {
    let data = log_data();
    let m = metrics(&data);
    assert_eq!(m.input_len, data.len());
    assert_eq!(m.literal_bytes + m.match_bytes, data.len());
    assert_eq!((m.utf8_valid, m.utf8_total), (data.len(), data.len()));
    assert!(m.lines_alike);
    assert!(!m.near_random);
}

#[test]
fn whatever_is_answered_the_input_is_restored() {
    assert!(log_data().len() <= MAX_OUTPUT_BYTES);
    for data in [log_data(), (0u8..200).collect::<Vec<u8>>(), b"x".to_vec()] {
        for yes in [true, false] {
            let saving = if yes { isize::MAX } else { isize::MIN };
            let judge = Constant { saving, random: yes, alike: yes, rich: yes };
            let (prog, _) = pipeline().compress(&data, &judge);
            assert!(prog.verify_round_trip(&data));
            let (prog, _) = AdaptiveScheduler::new().compress(&data, &judge);
            assert!(prog.verify_round_trip(&data));
        }
    }
}

#[test]
fn the_smaller_synthesis_is_taken() {
    for data in [log_data(), b"name,kind,zone\n".repeat(30), b"abcdabcd".repeat(50)] {
        let r = pipeline().compress_verbose(&data, &Floats);
        if let Some(s) = synthesizer_for(r.data_class) {
            let lz = LzEncoder::new();
            let hybrid = s.synthesize_hybrid(&data, &lz, &Floats).total_encoded_len();
            let parsed = s.synthesize(&lz.analyze(&data), &Floats).total_encoded_len();
            assert_eq!(r.synth_len, hybrid.min(parsed));
            assert_eq!(r.used_hybrid_path, hybrid <= parsed);
        }
    }
}
