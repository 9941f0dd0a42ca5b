//! The virtual machine, number coding and the program builder.

use mucas::{
    decode_leb128, encode_leb128, zlib_compress, Consensus, Opcode, ProgramBuilder, Subs,
    Transform, VmError, VmState, MAX_CALL_DEPTH, MAX_OUTPUT_BYTES,
};
use std::collections::HashMap;

fn run(prog: &[u8]) -> Result<Vec<u8>, VmError> {
    let mut vm = VmState::new();
    vm.exec(prog, &HashMap::new(), &Consensus::new())?;
    Ok(vm.output)
}

fn run_with(prog: &[u8], subs: &Subs) -> Result<Vec<u8>, VmError> {
    let mut vm = VmState::new();
    vm.exec(prog, subs, &Consensus::new())?;
    Ok(vm.into_output())
}

// --- LEB128 ---

#[test]
fn leb128_roundtrip() {
    for v in [0u32, 1, 127, 128, 255, 300, 16383, 16384, u32::MAX] {
        let enc = encode_leb128(v);
        let (dec, _) = decode_leb128(&enc).unwrap();
        assert_eq!(dec, v);
    }
}

#[test]
fn leb128_exact_bytes() {
    assert_eq!(encode_leb128(0), vec![0x00]);
    assert_eq!(encode_leb128(127), vec![0x7F]);
    assert_eq!(encode_leb128(128), vec![0x80, 0x01]);
    assert_eq!(encode_leb128(300), vec![0xAC, 0x02]);
    assert_eq!(encode_leb128(u32::MAX), vec![0xFF, 0xFF, 0xFF, 0xFF, 0x0F]);
}

#[test]
fn leb128_reads_only_its_own_bytes() {
    assert_eq!(decode_leb128(&[0xAC, 0x02, 0xFF, 0x00]), Ok((300, 2)));
}

#[test]
fn leb128_truncated() {
    assert_eq!(decode_leb128(&[]).unwrap_err(), VmError::TruncatedProgram);
    assert_eq!(decode_leb128(&[0x80]).unwrap_err(), VmError::TruncatedProgram);
}

// --- LIT ---

#[test]
fn lit_round_trip() {
    let data = b"Hello, world!";
    let prog = ProgramBuilder::new().lit(data).build().0;
    assert_eq!(run(&prog).unwrap(), data);
}

// --- CPY ---

#[test]
fn cpy_duplicate() {
    let prog = ProgramBuilder::new().lit(b"ab").cpy(2, 2).build().0;
    assert_eq!(run(&prog).unwrap(), b"abab");
}

#[test]
fn cpy_overlap_run() {
    let prog = ProgramBuilder::new().lit(b"a").cpy(1, 4).build().0;
    assert_eq!(run(&prog).unwrap(), b"aaaaa");
}

#[test]
fn cpy_repeats_a_period() {
    let prog = ProgramBuilder::new().lit(b"AB").cpy(2, 6).build().0;
    assert_eq!(run(&prog).unwrap(), b"ABABABAB");
    let prog = ProgramBuilder::new().lit(b"xyz").cpy(2, 5).build().0;
    assert_eq!(run(&prog).unwrap(), b"xyzyzyzy");
}

#[test]
fn cpy_underflow_error() {
    let prog = ProgramBuilder::new().cpy(5, 3).build().0;
    assert_eq!(run(&prog).unwrap_err().code(), 0x02);
}

// --- MAP ---

#[test]
fn map_inc_u8() {
    let prog = ProgramBuilder::new().lit(&[10u8, 20, 30]).map(Transform::IncU8, 3).build().0;
    assert_eq!(run(&prog).unwrap(), vec![11, 21, 31]);
}

#[test]
fn map_dec_u8() {
    let prog = ProgramBuilder::new().lit(&[11u8, 21, 31]).map(Transform::DecU8, 3).build().0;
    assert_eq!(run(&prog).unwrap(), vec![10, 20, 30]);
}

#[test]
fn map_delta_u8_prefix_sum() {
    let prog = ProgramBuilder::new().lit(&[5u8, 3, 2, 1]).map(Transform::DeltaU8, 4).build().0;
    assert_eq!(run(&prog).unwrap(), vec![5, 8, 10, 11]);
}

#[test]
fn map_delta_u8_arithmetic_sequence() {
    let prog = ProgramBuilder::new().lit(&[65u8, 1, 1, 1, 1]).map(Transform::DeltaU8, 5).build().0;
    assert_eq!(run(&prog).unwrap(), vec![65, 66, 67, 68, 69]);
}

#[test]
fn map_inc_u32() {
    let prog = ProgramBuilder::new()
        .lit(&[0xFF, 0x00, 0x00, 0x00])
        .map(Transform::IncU32, 4)
        .build()
        .0;
    assert_eq!(run(&prog).unwrap(), vec![0x00, 0x01, 0x00, 0x00]);
}

#[test]
fn map_byteswap_u32() {
    let prog = ProgramBuilder::new()
        .lit(&[0x01, 0x02, 0x03, 0x04])
        .map(Transform::ByteswapU32, 4)
        .build()
        .0;
    assert_eq!(run(&prog).unwrap(), vec![0x04, 0x03, 0x02, 0x01]);
}

#[test]
fn map_zigzag_u32() {
    let prog =
        ProgramBuilder::new().lit(&[2u8, 0, 0, 0]).map(Transform::ZigzagU32, 4).build().0;
    assert_eq!(run(&prog).unwrap(), vec![1, 0, 0, 0]);
}

#[test]
fn map_wraps_around() {
    let prog = ProgramBuilder::new().lit(&[255u8, 0]).map(Transform::IncU8, 2).build().0;
    assert_eq!(run(&prog).unwrap(), vec![0, 1]);
    let prog = ProgramBuilder::new().lit(&[0u8]).map(Transform::DecU8, 1).build().0;
    assert_eq!(run(&prog).unwrap(), vec![255]);
}

#[test]
fn map_delta_u32_sums_words() {
    let prog = ProgramBuilder::new()
        .lit(&[1, 0, 0, 0, 2, 0, 0, 0, 0xFF, 0xFF, 0xFF, 0xFF])
        .map(Transform::DeltaU32, 12)
        .build()
        .0;
    assert_eq!(run(&prog).unwrap(), vec![1, 0, 0, 0, 3, 0, 0, 0, 2, 0, 0, 0]);
}

#[test]
fn transforms_undo_each_other() {
    let block = [0xFFu8, 0x00, 0x7F, 0x80];
    for (a, b) in [
        (Transform::IncU8, Transform::DecU8),
        (Transform::DecU8, Transform::IncU8),
        (Transform::IncU32, Transform::DecU32),
        (Transform::DecU32, Transform::IncU32),
        (Transform::ByteswapU32, Transform::ByteswapU32),
    ] {
        let prog = ProgramBuilder::new().lit(&block).map(a, 4).map(b, 4).build().0;
        assert_eq!(run(&prog).unwrap(), block);
    }
}

#[test]
fn map_of_a_wrong_length_fails() {
    let prog = ProgramBuilder::new().lit(b"abc").map(Transform::IncU32, 3).build().0;
    assert_eq!(run(&prog).unwrap_err(), VmError::UnknownMapTransform(0x02));
    let prog = ProgramBuilder::new().lit(b"abcde").map(Transform::DeltaU32, 5).build().0;
    assert_eq!(run(&prog).unwrap_err().code(), 0x0A);
}

#[test]
fn map_changes_the_last_bytes_only() {
    let prog = ProgramBuilder::new().lit(&[1u8, 2, 3]).map(Transform::IncU8, 1).build().0;
    assert_eq!(run(&prog).unwrap(), vec![1, 2, 4]);
}

#[test]
fn map_of_more_than_there_is_fails() {
    let prog = ProgramBuilder::new().lit(&[1u8]).map(Transform::IncU8, 2).build().0;
    assert_eq!(run(&prog).unwrap_err().code(), 0x02);
}

#[test]
fn map_of_an_unknown_transform_fails() {
    assert_eq!(
        run(&[0x00, 0x01, 0x41, 0x02, 0x77, 0x01]).unwrap_err(),
        VmError::UnknownMapTransform(0x77)
    );
    assert_eq!(Transform::try_from(0x77u8).unwrap_err().code(), 0x0A);
}

// --- LOOP ---

#[test]
fn loop_repeat() {
    let body = ProgramBuilder::new().lit(b"x").build().0;
    let prog = ProgramBuilder::new().loop_(3, body).build().0;
    assert_eq!(run(&prog).unwrap(), b"xxx");
}

#[test]
fn loop_body_overrun() {
    let prog = vec![0x03, 0x03, 0x0F, 0x00, 0x00];
    assert_eq!(run(&prog).unwrap_err().code(), 0x03);
}

#[test]
fn loop_of_nothing_and_loop_zero_times() {
    let body = ProgramBuilder::new().lit(b"x").build().0;
    let prog = ProgramBuilder::new().loop_(0, body).lit(b"y").build().0;
    assert_eq!(run(&prog).unwrap(), b"y");
    let prog = ProgramBuilder::new().loop_(5, Vec::new()).lit(b"z").build().0;
    assert_eq!(run(&prog).unwrap(), b"z");
}

// --- CALL ---

#[test]
fn call_basic() {
    let (sub_body, _) = ProgramBuilder::new().lit(b"world").build();
    let (prog, mut subs) = ProgramBuilder::new().lit(b"hello ").call(0).build();
    subs.insert(0, sub_body);
    let mut vm = VmState::new();
    vm.exec(&prog, &subs, &Consensus::new()).unwrap();
    assert_eq!(vm.output, b"hello world");
}

#[test]
fn call_depth_exceeded() {
    let (body, _) = ProgramBuilder::new().call(0).build();
    let mut subs = HashMap::new();
    subs.insert(0u32, body);
    let (prog, _) = ProgramBuilder::new().call(0).build();
    let mut vm = VmState::new();
    let err = vm.exec(&prog, &subs, &Consensus::new()).unwrap_err();
    assert!(matches!(err, VmError::CallCycle(0) | VmError::CallDepthExceeded));
}

#[test]
fn calls_may_nest_up_to_the_limit() {
    let mut subs: Subs = HashMap::new();
    let depth = MAX_CALL_DEPTH as u32;
    for id in 0..depth - 1 {
        subs.insert(id, ProgramBuilder::new().call(id + 1).build().0);
    }
    subs.insert(depth - 1, ProgramBuilder::new().lit(b"deep").build().0);
    let prog = ProgramBuilder::new().call(0).build().0;
    assert_eq!(run_with(&prog, &subs).unwrap(), b"deep");

    subs.insert(depth - 1, ProgramBuilder::new().call(depth).build().0);
    subs.insert(depth, ProgramBuilder::new().lit(b"deeper").build().0);
    assert_eq!(run_with(&prog, &subs).unwrap_err(), VmError::CallDepthExceeded);
}

#[test]
fn call_of_an_unknown_macro_fails() {
    let prog = ProgramBuilder::new().call(3).build().0;
    assert_eq!(run(&prog).unwrap_err().code(), 0x07);
}

// --- REF ---

#[test]
fn ref_lookup_single_byte_hash() {
    let mut consensus = Consensus::new();
    consensus.insert(vec![7u8], b"pattern".to_vec());
    let (prog, subs) = ProgramBuilder::new().ref_(&[7u8]).build();
    let mut vm = VmState::new();
    vm.exec(&prog, &subs, &consensus).unwrap();
    assert_eq!(vm.output, b"pattern");
}

#[test]
fn ref_unknown_error() {
    let (prog, subs) = ProgramBuilder::new().ref_(&[42u8]).build();
    let err = VmState::new().exec(&prog, &subs, &Consensus::new()).unwrap_err();
    assert_eq!(err.code(), 0x07);
}

// --- ELIT ---

#[test]
fn elit_round_trip() {
    let data = b"Hello, ELIT world! This is a somewhat longer string to compress.";
    let prog = ProgramBuilder::new().elit(data).build().0;
    assert_eq!(run(&prog).unwrap(), data);
}

#[test]
fn elit_holds_a_deflated_payload() {
    let data = vec![b'q'; 500];
    let prog = ProgramBuilder::new().elit(&data).build().0;
    assert!(prog.len() < 100, "{} bytes", prog.len());
    let payload = zlib_compress(&data);
    assert_ne!(payload, data);
    assert_eq!(&prog[prog.len() - payload.len()..], payload.as_slice());
}

#[test]
fn elit_of_garbage_fails() {
    let prog = vec![0x06, 0x03, 0x05, 0xAA, 0xBB, 0xCC];
    assert!(run(&prog).is_err());
}

// --- errors and halting ---

#[test]
fn unknown_opcode_error() {
    assert_eq!(run(&[0xAB]).unwrap_err().code(), 0x01);
}

#[test]
fn truncated_programs_fail() {
    assert_eq!(run(&[0x00, 0x05, b'a']).unwrap_err(), VmError::TruncatedProgram);
    assert_eq!(run(&[0x01, 0x01]).unwrap_err(), VmError::TruncatedProgram);
    assert_eq!(run(&[0x05, 0x02, 0x00]).unwrap_err(), VmError::TruncatedProgram);
}

#[test]
fn halt_ends_the_program() {
    let prog = ProgramBuilder::new().lit(b"a").halt().lit(b"b").build().0;
    assert_eq!(run(&prog).unwrap(), b"a");
}

#[test]
fn output_is_bounded() {
    let prog = ProgramBuilder::new().lit(b"a").cpy(1, MAX_OUTPUT_BYTES as u32).build().0;
    assert_eq!(run(&prog).unwrap_err().code(), 0x04);
}

#[test]
fn a_failed_run_keeps_what_was_written() {
    let (prog, subs) = ProgramBuilder::new().lit(b"kept").cpy(9, 1).build();
    let mut vm = VmState::new();
    assert_eq!(vm.exec(&prog, &subs, &Consensus::new()).unwrap_err(), VmError::CpyUnderflow);
    assert_eq!(vm.output, b"kept");
    let (prog, subs) = ProgramBuilder::new().lit(b" and on").build();
    vm.exec(&prog, &subs, &Consensus::new()).unwrap();
    assert_eq!(vm.into_output(), b"kept and on");
}

#[test]
fn larger_tables_change_nothing() {
    let (prog, mut subs) =
        ProgramBuilder::new().call(0).add_sub(0, vec![0x00, 0x01, b'q']).build();
    let before = run_with(&prog, &subs).unwrap();
    subs.insert(1, vec![0xAB]);
    assert_eq!(run_with(&prog, &subs).unwrap(), before);
}

#[test]
fn error_codes_are_distinct() {
    let all = [
        VmError::UnknownOpcode(1),
        VmError::CpyUnderflow,
        VmError::LoopBodyOverrun,
        VmError::OutputOverflow,
        VmError::CallDepthExceeded,
        VmError::CallCycle(1),
        VmError::UnknownRef,
        VmError::RefHashMismatch,
        VmError::ConsensusUnavailable,
        VmError::UnknownMapTransform(1),
        VmError::ScanNoParamStream,
        VmError::ScanParamExhausted,
        VmError::TruncatedProgram,
    ];
    for i in 0..all.len() {
        for j in 0..i {
            assert_ne!(all[i].code(), all[j].code());
        }
    }
}

#[test]
fn opcodes_and_transforms_have_bytes() {
    for b in 0u8..=255 {
        if let Ok(op) = Opcode::try_from(b) {
            assert_eq!(op.to_byte(), b);
        }
        if let Ok(t) = Transform::try_from(b) {
            assert_eq!(t.to_byte(), b);
        }
    }
    assert_eq!(Opcode::try_from(0x00), Ok(Opcode::Lit));
    assert_eq!(Opcode::try_from(0xFF), Ok(Opcode::Halt));
    assert_eq!(Opcode::try_from(0x7E).unwrap_err().code(), 0x01);
    assert_eq!(Transform::try_from(0x04), Ok(Transform::DeltaU8));
}

// --- composite round-trip ---

#[test]
fn lib_hello_repeat_round_trip() {
    let chunk = b"Hello ";
    let mut prog = ProgramBuilder::new().lit(chunk);
    for _ in 1..1000 {
        prog = prog.cpy(chunk.len() as u32, chunk.len() as u32);
    }
    let (bytes, subs) = prog.build();
    let mut vm = VmState::new();
    vm.exec(&bytes, &subs, &Consensus::new()).unwrap();
    assert_eq!(vm.output, chunk.repeat(1000));
}

// --- SCAN / NEXT ---

#[test]
fn scan_basic_parameterized_rows() {
    let template = ProgramBuilder::new().next().lit(b",").next().lit(b"\n").build().0;
    let params: Vec<Vec<u8>> =
        vec![b"a".to_vec(), b"b".to_vec(), b"c".to_vec(), b"d".to_vec()];
    let (prog, mut subs) = ProgramBuilder::new().scan(2, 0, &params).build();
    subs.insert(0, template);
    let mut vm = VmState::new();
    vm.exec(&prog, &subs, &Consensus::new()).unwrap();
    assert_eq!(vm.output, b"a,b\nc,d\n");
}

#[test]
fn scan_with_fixed_column_in_template() {
    let template = ProgramBuilder::new().next().lit(b",FIXED,").next().lit(b"\n").build().0;
    let params: Vec<Vec<u8>> =
        vec![b"X1".to_vec(), b"Y1".to_vec(), b"X2".to_vec(), b"Y2".to_vec()];
    let (prog, mut subs) = ProgramBuilder::new().scan(2, 0, &params).build();
    subs.insert(0, template);
    let mut vm = VmState::new();
    vm.exec(&prog, &subs, &Consensus::new()).unwrap();
    assert_eq!(vm.output, b"X1,FIXED,Y1\nX2,FIXED,Y2\n");
}

#[test]
fn scan_empty_field() {
    let template = ProgramBuilder::new().next().lit(b",").next().lit(b"\n").build().0;
    let params: Vec<Vec<u8>> =
        vec![b"".to_vec(), b"val1".to_vec(), b"".to_vec(), b"val2".to_vec()];
    let (prog, mut subs) = ProgramBuilder::new().scan(2, 0, &params).build();
    subs.insert(0, template);
    let mut vm = VmState::new();
    vm.exec(&prog, &subs, &Consensus::new()).unwrap();
    assert_eq!(vm.output, b",val1\n,val2\n");
}

#[test]
fn next_outside_scan_errors() {
    let prog = vec![0x08u8];
    let err = VmState::new().exec(&prog, &HashMap::new(), &Consensus::new()).unwrap_err();
    assert_eq!(err.code(), 0x0B);
}

#[test]
fn scan_with_too_few_fields_fails() {
    let template = ProgramBuilder::new().next().build().0;
    let (prog, subs) =
        ProgramBuilder::new().scan(2, 0, &vec![b"a".to_vec()]).add_sub(0, template).build();
    assert_eq!(run_with(&prog, &subs).unwrap_err().code(), 0x0C);
}

// --- MAP + LIT pipeline ---

#[test]
fn delta_encode_in_loop() {
    let inner_body = ProgramBuilder::new().lit(&[65u8, 1, 1, 1]).build().0;
    let prog =
        ProgramBuilder::new().loop_(1, inner_body).map(Transform::DeltaU8, 4).build().0;
    assert_eq!(run(&prog).unwrap(), vec![65, 66, 67, 68]);
}

// --- the consensus table ---

#[test]
fn consensus_keeps_the_last_block_of_a_key() {
    let mut c = Consensus::new();
    assert!(c.is_empty());
    c.insert(vec![2], b"two".to_vec());
    c.insert(vec![1], b"one".to_vec());
    c.insert(vec![2], b"TWO".to_vec());
    assert_eq!(c.len(), 2);
    assert_eq!(c.get(&[1]), Some(&b"one".to_vec()));
    assert_eq!(c.get(&[2]), Some(&b"TWO".to_vec()));
    assert_eq!(c.get(&[3]), None);
    assert_eq!(c.entry(0).0, &vec![1u8]);
    let d = c.clone();
    assert_eq!(d.get(&[2]), Some(&b"TWO".to_vec()));
}

#[test]
fn a_loop_is_its_body_run_as_often() {
    let lit = ProgramBuilder::new().lit(b"ab").build().0;
    let halted = ProgramBuilder::new().lit(b"xy").halt().lit(b"z").build().0;
    let failing = ProgramBuilder::new().lit(b"q").map(Transform::DeltaU32, 3).build().0;
    for body in [lit, halted, failing] {
        for count in 0u32..5 {
            let mut prog = vec![0x03];
            prog.extend(encode_leb128(count));
            prog.extend(encode_leb128(body.len() as u32));
            prog.extend_from_slice(&body);
            let mut looped = VmState::new();
            let end = looped.exec(&prog, &HashMap::new(), &Consensus::new());
            let mut repeated = VmState::new();
            let mut last = Ok(());
            for _ in 0..count {
                last = repeated.exec(&body, &HashMap::new(), &Consensus::new());
                if last.is_err() {
                    break;
                }
            }
            assert_eq!(end, last);
            assert_eq!(looped.output, repeated.output);
        }
    }
}

#[test]
fn elit_tells_the_length_of_its_data() {
    let data = b"coded ".repeat(70);
    let prog = ProgramBuilder::new().elit(&data).build().0;
    assert_eq!(prog[0], 0x06);
    let (stored, n) = decode_leb128(&prog[1..]).unwrap();
    let (len, m) = decode_leb128(&prog[1 + n..]).unwrap();
    assert_eq!(len as usize, data.len());
    assert_eq!(stored as usize, prog.len() - 1 - n - m);
}

#[test]
fn programs_may_stand_one_behind_the_other() {
    let p = ProgramBuilder::new().lit(b"ab").cpy(2, 3).build().0;
    let q = ProgramBuilder::new().map(Transform::IncU8, 1).lit(b"z").build().0;
    let bad = vec![0x42];
    for behind in [q, bad, Vec::new()] {
        let mut both = VmState::new();
        let end = both.exec(
            &[p.as_slice(), behind.as_slice()].concat(),
            &HashMap::new(),
            &Consensus::new(),
        );
        let mut each = VmState::new();
        each.exec(&p, &HashMap::new(), &Consensus::new()).unwrap();
        assert_eq!(end, each.exec(&behind, &HashMap::new(), &Consensus::new()));
        assert_eq!(both.output, each.output);

        let halted = [p.as_slice(), &[0xFF], behind.as_slice()].concat();
        assert_eq!(run(&halted).unwrap(), run(&p).unwrap());
    }
}

#[test]
fn errors_have_messages() {
    assert_eq!(VmError::UnknownOpcode(200).describe(), "VmError(0x01): UnknownOpcode(200)");
    assert_eq!(VmError::TruncatedProgram.describe(), "VmError(0xFF): TruncatedProgram");
    for e in [VmError::CallCycle(10), VmError::UnknownMapTransform(9), VmError::CpyUnderflow] {
        assert_eq!(e.describe(), format!("VmError(0x{:02X}): {:?}", e.code(), e));
    }
}
