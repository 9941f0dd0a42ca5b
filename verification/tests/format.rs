//! The container of a program.

use mucas::format::{compress_zlib, decompress_zlib, FormatError, MucasFile};
use mucas::{Consensus, ProgramBuilder, Subs, VmState};
use std::collections::HashMap;

fn no_subs() -> Subs {
    HashMap::new()
}

#[test]
fn header_fields_correct() {
    let f = MucasFile::new(vec![0x00], no_subs());
    let b = f.encode();
    assert_eq!(&b[0..4], b"MCAS");
    assert_eq!(b[4], 0x01);
    assert_eq!(b[5], 0x00);
}

#[test]
fn round_trip_empty_program() {
    let encoded = MucasFile::new(vec![], no_subs()).encode();
    let decoded = MucasFile::decode(&encoded).unwrap();
    assert!(decoded.program.is_empty());
    assert!(decoded.subs.is_empty());
    assert!(decoded.consensus.is_empty());
}

#[test]
fn round_trip_program_with_subs() {
    let sub_body: Vec<u8> = ProgramBuilder::new().lit(b"PREFIX:").build().0;
    let subs: Subs = [(0u32, sub_body)].into_iter().collect();
    let main: Vec<u8> = ProgramBuilder::new().call(0).lit(b"suffix").build().0;

    let encoded = MucasFile::new(main.clone(), subs.clone()).encode();
    let decoded = MucasFile::decode(&encoded).unwrap();
    assert_eq!(decoded.program, main);
    assert_eq!(decoded.subs, subs);

    let mut vm = VmState::new();
    vm.exec(&decoded.program, &decoded.subs, &Consensus::new()).unwrap();
    assert_eq!(vm.output, b"PREFIX:suffix");
}

#[test]
fn round_trip_loop_program_no_subs() {
    let body: Vec<u8> = ProgramBuilder::new().lit(b"Hello").build().0;
    let prog: Vec<u8> = ProgramBuilder::new().loop_(3, body).build().0;
    let encoded = MucasFile::new(prog.clone(), no_subs()).encode();
    let decoded = MucasFile::decode(&encoded).unwrap();
    assert_eq!(decoded.program, prog);

    let mut vm = VmState::new();
    vm.exec(&decoded.program, &decoded.subs, &Consensus::new()).unwrap();
    assert_eq!(vm.output, b"HelloHelloHello");
}

#[test]
fn compression_reduces_repetitive_program() {
    let line = b"2024-01-01T00:00:00Z INFO  server: request processed ok\n";
    let body: Vec<u8> = ProgramBuilder::new().lit(line).build().0;
    let prog: Vec<u8> = ProgramBuilder::new().loop_(200, body).build().0;
    let original_size = line.len() * 200;
    let mucas_size = MucasFile::new(prog, no_subs()).encode().len();
    let ratio = mucas_size as f64 / original_size as f64;
    assert!(ratio < 0.05, "expected < 5% of original, got {ratio:.2}");
}

// --- Consensus embedding ---

#[test]
fn consensus_round_trip_via_mucasfile() {
    let pattern = b"SERVER_LOG_ENTRY_PREFIX_DATA:".to_vec();
    let mut consensus = Consensus::new();
    consensus.insert(vec![0x00], pattern.clone());

    let prog = vec![0x05u8, 0x01, 0x00];

    let encoded =
        MucasFile::new_with_consensus(prog.clone(), no_subs(), consensus.clone()).encode();

    assert_eq!(encoded[5], 0x01, "flags should have FLAG_HAS_CONSENSUS set");

    let decoded = MucasFile::decode(&encoded).unwrap();
    assert_eq!(decoded.program, prog);
    assert_eq!(decoded.flags, 0x01);
    assert_eq!(decoded.consensus.get(&vec![0x00u8]).unwrap(), &pattern);

    let mut vm = VmState::new();
    vm.exec(&decoded.program, &decoded.subs, &decoded.consensus).unwrap();
    assert_eq!(vm.output, pattern);
}

#[test]
fn empty_consensus_produces_flag_zero() {
    let f = MucasFile::new_with_consensus(vec![], no_subs(), Consensus::new());
    let b = f.encode();
    assert_eq!(b[5], 0x00, "empty consensus must not set FLAG_HAS_CONSENSUS");
}

// --- Error cases ---

#[test]
fn decode_rejects_too_short() {
    assert_eq!(MucasFile::decode(&[]).unwrap_err(), FormatError::TooShort);
    assert_eq!(MucasFile::decode(&[0; 9]).unwrap_err(), FormatError::TooShort);
}

#[test]
fn decode_rejects_bad_magic() {
    let mut d = vec![0u8; 10];
    d[0..4].copy_from_slice(b"XXXX");
    assert_eq!(MucasFile::decode(&d).unwrap_err(), FormatError::BadMagic);
}

#[test]
fn decode_rejects_unsupported_version() {
    let mut enc = MucasFile::new(vec![], no_subs()).encode();
    enc[4] = 0x02;
    assert_eq!(MucasFile::decode(&enc).unwrap_err(), FormatError::UnsupportedVersion(0x02));
}

#[test]
fn decode_rejects_a_broken_stream() {
    let mut enc = MucasFile::new(vec![1, 2, 3], no_subs()).encode();
    enc[10] ^= 0xFF;
    assert_eq!(MucasFile::decode(&enc).unwrap_err(), FormatError::DecompressFailed);
}

#[test]
fn decode_rejects_a_wrong_length() {
    let mut enc = MucasFile::new(vec![1, 2, 3], no_subs()).encode();
    enc[6] = 99;
    assert_eq!(
        MucasFile::decode(&enc).unwrap_err(),
        FormatError::LengthMismatch { expected: 99, actual: 7 }
    );
}

#[test]
fn decode_rejects_a_cut_payload() {
    let mut enc = vec![0x4D, 0x43, 0x41, 0x53, 0x01, 0x00, 0x06, 0, 0, 0];
    enc.extend(compress_zlib(&[1, 0, 0, 0, 9, 9]));
    assert_eq!(MucasFile::decode(&enc).unwrap_err(), FormatError::TooShort);
}

#[test]
fn payload_layout() {
    let subs: Subs = [(7u32, vec![0xAA, 0xBB]), (2u32, vec![0xCC])].into_iter().collect();
    let enc = MucasFile::new(vec![0xFF], subs).encode();
    let payload = decompress_zlib(&enc[10..]).unwrap();
    assert_eq!(
        payload,
        vec![
            2, 0, 0, 0, 2, 0, 0, 0, 1, 0, 0, 0, 0xCC, 7, 0, 0, 0, 2, 0, 0, 0, 0xAA, 0xBB, 0xFF
        ]
    );
    assert_eq!(&enc[6..10], &[24, 0, 0, 0]);
}

#[test]
fn multiple_subs_round_trip_correctly() {
    let sub3: Vec<u8> = ProgramBuilder::new().lit(b"THREE").build().0;
    let sub1: Vec<u8> = ProgramBuilder::new().lit(b"ONE").build().0;
    let subs: Subs = [(3u32, sub3), (1u32, sub1)].into_iter().collect();
    let main: Vec<u8> = ProgramBuilder::new().call(1).call(3).build().0;

    let encoded = MucasFile::new(main.clone(), subs.clone()).encode();
    let decoded = MucasFile::decode(&encoded).unwrap();
    assert_eq!(decoded.subs, subs);

    let mut vm = VmState::new();
    vm.exec(&decoded.program, &decoded.subs, &Consensus::new()).unwrap();
    assert_eq!(vm.output, b"ONETHREE");
}

// --- zlib ---

#[test]
fn zlib_gives_back_what_was_written() {
    let data: Vec<u8> = b"zlib zlib zlib zlib ".repeat(20);
    let stream = compress_zlib(&data);
    assert_ne!(stream, data);
    assert!(stream.len() < data.len());
    assert_eq!(stream[0], 0x78);
    assert_eq!(decompress_zlib(&stream), Ok(data));
}

#[test]
fn zlib_rejects_garbage() {
    assert_eq!(decompress_zlib(&[1, 2, 3, 4]), Err(()));
    let mut stream = compress_zlib(b"checked by a checksum");
    let last = stream.len() - 1;
    stream[last] ^= 1;
    assert_eq!(decompress_zlib(&stream), Err(()));
}

#[test]
fn try_encode_encodes() {
    let f = MucasFile::new(vec![5, 6], no_subs());
    assert_eq!(f.try_encode(), Some(f.encode()));
}

#[test]
fn format_errors_have_messages() {
    assert_eq!(
        FormatError::TooShort.describe(),
        "file too short to contain MCAS header"
    );
    assert_eq!(FormatError::BadMagic.describe(), "bad magic: not a .mucas file");
    assert_eq!(
        FormatError::UnsupportedVersion(0x2B).describe(),
        "unsupported .mucas version 0x2B"
    );
    assert_eq!(FormatError::DecompressFailed.describe(), "zlib decompression failed");
    assert_eq!(
        FormatError::LengthMismatch { expected: 1005, actual: 0 }.describe(),
        "decompressed length 0 != declared 1005"
    );
}
