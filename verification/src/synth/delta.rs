//! Literals as running differences.

use vstd::prelude::*;
use crate::machine::{
    byte_sum, map_step, step, transformed, Env, State, Transform, MAX_OUTPUT_BYTES,
};
use crate::synth::token::{leb_len, low_bits};
use crate::tokens::{all_fit, appends, fits, instr_of, lo32, toks_run, with_output, Tok};
use crate::leb::leb_size;

verus! {

/// The shortest literal that is written as differences.
pub const MIN_DELTA_LEN: usize = 8;

/// Each byte less the one before it, modulo 256.
pub open spec fn deltas(data: Seq<u8>) -> Seq<u8> {
    Seq::new(
        data.len(),
        |i: int|
            if i == 0 {
                data[0]
            } else {
                ((data[i] + 256 - data[i - 1]) % 256) as u8
            },
    )
}

/// Summing up the differences gives the data back.
pub proof fn summing_undoes_deltas(data: Seq<u8>)
    ensures
        transformed(Transform::DeltaU8, deltas(data)) == Some(data),
{
    let d = deltas(data);
    let back = transformed(Transform::DeltaU8, d).unwrap();
    assert forall|i: int| 0 <= i < data.len() implies back[i] == data[i] by {
        lemma_sum_of_deltas(data, i);
    }
    assert(back =~= data);
}

proof fn lemma_sum_of_deltas(data: Seq<u8>, i: int)
    requires
        0 <= i < data.len(),
    ensures
        byte_sum(deltas(data), (i + 1) as nat) % 256 == data[i],
    decreases i,
{
    let d = deltas(data);
    if i == 0 {
        assert(byte_sum(d, 0) == 0);
        assert(byte_sum(d, 1) == byte_sum(d, 0) + d[0]);
    } else {
        lemma_sum_of_deltas(data, i - 1);
        assert(byte_sum(d, (i + 1) as nat) == byte_sum(d, i as nat) + d[i]);
    }
}

/// Returns each byte less the one before it.
pub fn delta_bytes(data: &[u8]) -> (out: Vec<u8>)
    ensures
        out@ == deltas(data@),
{
    let mut out: Vec<u8> = Vec::new();
    let mut i: usize = 0;
    while i < data.len()
        invariant
            i <= data@.len(),
            out@.len() == i,
            forall|k: int| 0 <= k < i ==> #[trigger] out@[k] == deltas(data@)[k],
        decreases data.len() - i,
    {
        if i == 0 {
            out.push(data[0]);
        } else {
            out.push(data[i].wrapping_sub(data[i - 1]));
        }
        i = i + 1;
    }
    assert(out@ =~= deltas(data@));
    out
}

/// What writing a literal of `n` bytes as differences gains if entropy coding
/// saves `saving` bytes: that less the cost of the transform.
pub open spec fn delta_gain(n: nat, saving: int) -> int {
    saving - (2 + leb_size(lo32(n)))
}

/// Returns the gain and the differences, if writing `data` as differences pays
/// off when entropy coding saves `saving` bytes on them.
pub fn estimate_delta_u8_gain(data: &[u8], saving: isize) -> (r: Option<(isize, Vec<u8>)>)
    ensures
        match r {
            Some((gain, delta)) => data@.len() >= MIN_DELTA_LEN && gain == delta_gain(
                data@.len(),
                saving as int,
            ) && gain > 0 && delta@ == deltas(data@),
            None => data@.len() < MIN_DELTA_LEN || delta_gain(data@.len(), saving as int) <= 0,
        },
{
    let n: usize = data.len();
    if n < MIN_DELTA_LEN {
        return None;
    }
    let cost: isize = 2 + leb_len(low_bits(n)) as isize;
    if saving <= cost {
        return None;
    }
    Some((saving - cost, delta_bytes(data)))
}

/// A literal as differences, followed by their summing.
pub open spec fn delta_toks(data: Seq<u8>) -> Seq<Tok> {
    seq![
        Tok::Lit { data: deltas(data) },
        Tok::MapBlock { transform: Transform::DeltaU8, length: data.len() },
    ]
}

/// Differences followed by their summing write the literal.
pub proof fn deltas_write_the_literal(data: Seq<u8>, env: Env)
    requires
        data.len() <= MAX_OUTPUT_BYTES,
    ensures
        appends(delta_toks(data), data, env),
        all_fit(delta_toks(data)),
{
    let none = Seq::<u32>::empty();
    let ts = delta_toks(data);
    let d = deltas(data);
    summing_undoes_deltas(data);
    assert forall|m: State|
        m.err is None && m.out.len() + data.len() <= MAX_OUTPUT_BYTES implies #[trigger] toks_run(
        ts,
        m,
        env,
        0,
        none,
    ) == with_output(m, data) by {
        let mid = m.emit(d);
        assert(step(instr_of(ts[0]), m, env, 0, none) == mid);
        assert(mid.out.skip(m.out.len() as int) =~= d);
        assert(mid.out.take(m.out.len() as int) =~= m.out);
        let end = map_step(mid, Transform::DeltaU8, data.len());
        assert(end == with_output(m, data));
        let tail = ts.drop_first();
        assert(tail[0] == ts[1]);
        assert(step(instr_of(tail[0]), mid, env, 0, none) == end);
        assert(toks_run(tail.drop_first(), end, env, 0, none) == end);
        assert(toks_run(tail, mid, env, 0, none) == end);
    }
    assert forall|k: int| 0 <= k < ts.len() implies #[trigger] fits(ts[k]) by {}
}

} // verus!
