//! The container of a single program: header, macros, consensus blocks and the
//! program itself, the latter three deflated.

use std::collections::HashMap;
use vstd::prelude::*;
use crate::bytes::{
    append, copy_of, le32_bytes, le32_value, lemma_le32, push_le32, read_le32, same,
};
use crate::consensus::{entries_map, keys_ascend, lemma_entries_map, listings_agree, Consensus};
use crate::deflate::{inflate, zlib_contents, zlib_stream};
use crate::ids::{is_listing, listing, sorted_ids};
use crate::text::{around, decimal, decimal_text, hex, hex_text, with_number};
use crate::tokens::lo32;
use crate::vm::{bodies, Subs};

pub use crate::deflate::compress_zlib;

verus! {

broadcast use {
    vstd::std_specs::hash::group_hash_axioms,
    crate::bytes::lemma_le32_len,
    crate::bytes::lemma_le32_bound,
};

/// The mark at the start of a container: "MCAS".
pub const MAGIC: [u8; 4] = [0x4D, 0x43, 0x41, 0x53];

/// The container version.
pub const VERSION: u8 = 0x01;

/// The flag of a container with consensus blocks.
const FLAG_HAS_CONSENSUS: u8 = 0x01;

/// Why bytes are not a container.
#[derive(Debug, Clone, Copy, PartialEq, Eq, Structural)]
pub enum FormatError {
    /// The data ends too early.
    TooShort,
    /// The data does not start with the mark.
    BadMagic,
    /// The version is not the known one.
    UnsupportedVersion(u8),
    /// The payload does not inflate.
    DecompressFailed,
    /// The payload has another length than the header says.
    LengthMismatch { expected: usize, actual: usize },
}

impl FormatError {
    /// What went wrong, in words.
    pub open spec fn message(self) -> Seq<char> {
        match self {
            FormatError::TooShort => "file too short to contain MCAS header"@,
            FormatError::BadMagic => "bad magic: not a .mucas file"@,
            FormatError::UnsupportedVersion(v) => "unsupported .mucas version 0x"@ + hex(v),
            FormatError::DecompressFailed => "zlib decompression failed"@,
            FormatError::LengthMismatch { expected, actual } => "decompressed length "@ + decimal(
                actual as nat,
            ) + " != declared "@ + decimal(expected as nat),
        }
    }

    /// Returns what went wrong, in words.
    pub fn describe(&self) -> (text: String)
        ensures
            text@ == self.message(),
    {
        match self {
            FormatError::TooShort => "file too short to contain MCAS header".to_owned(),
            FormatError::BadMagic => "bad magic: not a .mucas file".to_owned(),
            FormatError::UnsupportedVersion(v) => with_number(
                "unsupported .mucas version 0x",
                hex_text(*v),
            ),
            FormatError::DecompressFailed => "zlib decompression failed".to_owned(),
            FormatError::LengthMismatch { expected, actual } => with_number(
                around(
                    "decompressed length ",
                    decimal_text(*actual as u64),
                    " != declared ",
                ).as_str(),
                decimal_text(*expected as u64),
            ),
        }
    }
}

/// A program with its macros and consensus blocks.
#[derive(Debug)]
pub struct MucasFile {
    pub program: Vec<u8>,
    pub subs: Subs,
    pub flags: u8,
    pub consensus: Consensus,
}

/// A container as mathematics.
#[verifier::ext_equal]
pub struct FileView {
    pub program: Seq<u8>,
    pub subs: vstd::map::Map<u32, Seq<u8>>,
    pub flags: u8,
    pub consensus: vstd::map::Map<Seq<u8>, Seq<u8>>,
}

impl View for MucasFile {
    type V = FileView;

    open spec fn view(&self) -> FileView {
        FileView {
            program: self.program@,
            subs: bodies(self.subs@),
            flags: self.flags,
            consensus: self.consensus@,
        }
    }
}

/// One consensus block: the length of its key, the key, its length, the block.
pub open spec fn block_bytes(key: Seq<u8>, block: Seq<u8>) -> Seq<u8> {
    seq![(key.len() % 256) as u8] + key + le32_bytes(lo32(block.len())) + block
}

/// The consensus blocks from place `k` on.
pub open spec fn blocks_from(e: Seq<(Vec<u8>, Vec<u8>)>, k: int) -> Seq<u8>
    decreases e.len() - k,
{
    if k < 0 || k >= e.len() {
        Seq::empty()
    } else {
        block_bytes(e[k].0@, e[k].1@) + blocks_from(e, k + 1)
    }
}

/// One macro: its id, its length, its body.
pub open spec fn macro_bytes(id: u32, body: Seq<u8>) -> Seq<u8> {
    le32_bytes(id as nat) + le32_bytes(lo32(body.len())) + body
}

/// The macros from place `k` on.
pub open spec fn macros_from(
    ids: Seq<u32>,
    subs: vstd::map::Map<u32, Seq<u8>>,
    k: int,
) -> Seq<u8>
    decreases ids.len() - k,
{
    if k < 0 || k >= ids.len() {
        Seq::empty()
    } else {
        macro_bytes(ids[k], subs[ids[k]]) + macros_from(ids, subs, k + 1)
    }
}

/// The payload: the consensus blocks in the order of their keys, if there are
/// any, then the macros in the order of their ids, both behind their number, and
/// the program.
pub open spec fn payload_of(
    program: Seq<u8>,
    subs: vstd::map::Map<u32, Seq<u8>>,
    blocks: Seq<(Vec<u8>, Vec<u8>)>,
) -> Seq<u8> {
    let ids = listing(subs.dom());
    (if blocks.len() == 0 {
        Seq::empty()
    } else {
        le32_bytes(lo32(blocks.len())) + blocks_from(blocks, 0)
    }) + (le32_bytes(lo32(ids.len())) + macros_from(ids, subs, 0) + program)
}

/// The header of a container whose payload has `n` bytes.
pub open spec fn header_of(flags: u8, n: nat) -> Seq<u8> {
    seq![0x4Du8, 0x43, 0x41, 0x53, 0x01, flags] + le32_bytes(lo32(n))
}

/// The number at place `pos`, if there is room for one.
pub open spec fn number_at(s: Seq<u8>, pos: nat) -> Option<nat> {
    if pos + 4 > s.len() {
        None
    } else {
        Some(le32_value(s.subrange(pos as int, (pos + 4) as int)))
    }
}

/// Reading `count` consensus blocks from place `pos` on into a table, and the
/// place behind them.
pub open spec fn read_blocks(
    s: Seq<u8>,
    pos: nat,
    count: nat,
    acc: vstd::map::Map<Seq<u8>, Seq<u8>>,
) -> Option<(vstd::map::Map<Seq<u8>, Seq<u8>>, nat)>
    decreases count,
{
    if count == 0 {
        Some((acc, pos))
    } else if pos >= s.len() {
        None
    } else {
        let at = pos + 1 + s[pos as int] as nat;
        match number_at(s, at) {
            None => None,
            Some(n) => if at + 4 + n > s.len() {
                None
            } else {
                read_blocks(
                    s,
                    at + 4 + n,
                    (count - 1) as nat,
                    acc.insert(
                        s.subrange((pos + 1) as int, at as int),
                        s.subrange((at + 4) as int, (at + 4 + n) as int),
                    ),
                )
            },
        }
    }
}

/// Reading `count` macros from place `pos` on into a table, and the place behind
/// them.
pub open spec fn read_macros(
    s: Seq<u8>,
    pos: nat,
    count: nat,
    acc: vstd::map::Map<u32, Seq<u8>>,
) -> Option<(vstd::map::Map<u32, Seq<u8>>, nat)>
    decreases count,
{
    if count == 0 {
        Some((acc, pos))
    } else {
        match (number_at(s, pos), number_at(s, pos + 4)) {
            (Some(id), Some(n)) => if pos + 8 + n > s.len() {
                None
            } else {
                read_macros(
                    s,
                    pos + 8 + n,
                    (count - 1) as nat,
                    acc.insert(id as u32, s.subrange((pos + 8) as int, (pos + 8 + n) as int)),
                )
            },
            _ => None,
        }
    }
}

/// The consensus section of a payload with these flags, and the place behind it.
pub open spec fn read_consensus(s: Seq<u8>, flags: u8) -> Option<
    (vstd::map::Map<Seq<u8>, Seq<u8>>, nat),
> {
    if flags % 2 == 0 {
        Some((vstd::map::Map::empty(), 0))
    } else {
        match number_at(s, 0) {
            None => None,
            Some(n) => read_blocks(s, 4, n, vstd::map::Map::empty()),
        }
    }
}

/// The macro section of a payload from place `pos` on, and the place behind it.
pub open spec fn read_subs(s: Seq<u8>, pos: nat) -> Option<(vstd::map::Map<u32, Seq<u8>>, nat)> {
    match number_at(s, pos) {
        None => None,
        Some(n) => read_macros(s, pos + 4, n, vstd::map::Map::empty()),
    }
}

/// What a payload with these flags holds.
pub open spec fn read_payload(s: Seq<u8>, flags: u8) -> Option<FileView> {
    match read_consensus(s, flags) {
        None => None,
        Some((consensus, pos)) => match read_subs(s, pos) {
            None => None,
            Some((subs, start)) => Some(
                FileView { program: s.skip(start as int), subs, flags, consensus },
            ),
        },
    }
}

/// What a container holds, or why the data is not one.
pub open spec fn read_file(data: Seq<u8>) -> Result<FileView, FormatError> {
    if data.len() < 10 {
        Err(FormatError::TooShort)
    } else if data.take(4) != seq![0x4Du8, 0x43, 0x41, 0x53] {
        Err(FormatError::BadMagic)
    } else if data[4] != VERSION {
        Err(FormatError::UnsupportedVersion(data[4]))
    } else {
        match zlib_contents(data.skip(10)) {
            None => Err(FormatError::DecompressFailed),
            Some(payload) => {
                let n = le32_value(data.subrange(6, 10));
                if payload.len() != n {
                    Err(
                        FormatError::LengthMismatch {
                            expected: n as usize,
                            actual: payload.len() as usize,
                        },
                    )
                } else {
                    match read_payload(payload, data[5]) {
                        Some(f) => Ok(f),
                        None => Err(FormatError::TooShort),
                    }
                }
            },
        }
    }
}

/// Reads `count` consensus blocks. A key is as long as the byte before it says.
fn parse_consensus(payload: &[u8], pos: usize) -> (r: Result<(Consensus, usize), FormatError>)
    requires
        pos <= payload@.len(),
    ensures
        match number_at(payload@, pos as nat) {
            None => r == Err::<(Consensus, usize), FormatError>(FormatError::TooShort),
            Some(n) => match read_blocks(
                payload@,
                (pos + 4) as nat,
                n,
                vstd::map::Map::empty(),
            ) {
                None => r == Err::<(Consensus, usize), FormatError>(FormatError::TooShort),
                Some((m, end)) => r matches Ok((c, e)) && c@ == m && e == end && e
                    <= payload@.len(),
            },
        },
{
    if payload.len() - pos < 4 {
        return Err(FormatError::TooShort);
    }
    let count: u32 = read_le32(payload, pos);
    let mut at: usize = pos + 4;
    let mut consensus: Consensus = Consensus::new();
    let ghost goal = read_blocks(
        payload@,
        (pos + 4) as nat,
        count as nat,
        vstd::map::Map::empty(),
    );
    let mut k: u32 = 0;
    while k < count
        invariant
            pos + 4 <= payload@.len(),
            number_at(payload@, pos as nat) == Some(count as nat),
            goal == read_blocks(
                payload@,
                (pos + 4) as nat,
                count as nat,
                vstd::map::Map::empty(),
            ),
            k <= count,
            at <= payload.len(),
            goal == read_blocks(payload@, at as nat, (count - k) as nat, consensus@),
        decreases count - k,
    {
        if at >= payload.len() {
            return Err(FormatError::TooShort);
        }
        let key_len: usize = payload[at] as usize;
        if payload.len() - at - 1 < key_len {
            return Err(FormatError::TooShort);
        }
        let key_end: usize = at + 1 + key_len;
        if payload.len() - key_end < 4 {
            return Err(FormatError::TooShort);
        }
        let n: usize = read_le32(payload, key_end) as usize;
        if payload.len() - key_end - 4 < n {
            return Err(FormatError::TooShort);
        }
        let start: usize = key_end + 4;
        consensus.insert(
            copy_of(&payload[at + 1..key_end]),
            copy_of(&payload[start..start + n]),
        );
        at = start + n;
        k = k + 1;
    }
    Ok((consensus, at))
}

/// Reads the macros from place `pos` on.
fn parse_subs_at(payload: &[u8], pos: usize) -> (r: Result<(Subs, usize), FormatError>)
    requires
        pos <= payload@.len(),
    ensures
        match read_subs(payload@, pos as nat) {
            None => r == Err::<(Subs, usize), FormatError>(FormatError::TooShort),
            Some((m, end)) => r matches Ok((s, e)) && bodies(s@) == m && e == end && e
                <= payload@.len(),
        },
{
    if payload.len() - pos < 4 {
        return Err(FormatError::TooShort);
    }
    let count: u32 = read_le32(payload, pos);
    let mut at: usize = pos + 4;
    let mut subs: Subs = HashMap::new();
    let ghost goal = read_subs(payload@, pos as nat);
    assert(bodies(subs@) =~= vstd::map::Map::empty());
    let mut k: u32 = 0;
    while k < count
        invariant
            goal == read_subs(payload@, pos as nat),
            k <= count,
            at <= payload.len(),
            goal == read_macros(payload@, at as nat, (count - k) as nat, bodies(subs@)),
        decreases count - k,
    {
        if payload.len() - at < 8 {
            return Err(FormatError::TooShort);
        }
        let id: u32 = read_le32(payload, at);
        let n: usize = read_le32(payload, at + 4) as usize;
        if payload.len() - at - 8 < n {
            return Err(FormatError::TooShort);
        }
        let ghost before = bodies(subs@);
        let start: usize = at + 8;
        let body: Vec<u8> = copy_of(&payload[start..start + n]);
        let ghost code = body@;
        subs.insert(id, body);
        assert(bodies(subs@) =~= before.insert(id, code));
        at = start + n;
        k = k + 1;
    }
    Ok((subs, at))
}

/// Reads back what a zlib stream holds.
pub fn decompress_zlib(data: &[u8]) -> (r: Result<Vec<u8>, ()>)
    ensures
        match r {
            Ok(out) => zlib_contents(data@) == Some(out@),
            Err(_) => zlib_contents(data@) is None,
        },
{
    match inflate(data) {
        Some(out) => Ok(out),
        None => Err(()),
    }
}

impl MucasFile {
    /// The payload that the container holds.
    pub open spec fn payload(&self) -> Seq<u8> {
        payload_of(self.program@, bodies(self.subs@), self.consensus.listing())
    }

    /// The flags tell whether there are consensus blocks, every key fits its
    /// length byte, and the payload fits its length field. This holds of every
    /// container whose flags the constructors set and that is not too large.
    pub open spec fn is_sound(&self) -> bool {
        &&& self.flags % 2 == 1 <==> self.consensus@ != vstd::map::Map::<
            Seq<u8>,
            Seq<u8>,
        >::empty()
        &&& forall|key: Seq<u8>| #[trigger]
            self.consensus@.contains_key(key) ==> key.len() <= 255
        &&& self.payload().len() < 0x1_0000_0000
    }

    /// The consensus blocks are listed in the order of their keys. This holds of
    /// every table.
    pub open spec fn is_listed(&self) -> bool {
        &&& keys_ascend(self.consensus.listing())
        &&& entries_map(self.consensus.listing()) == self.consensus@
    }

    /// These bytes are the container: the header and the deflated payload.
    pub open spec fn encodes(&self, out: Seq<u8>) -> bool {
        out == header_of(self.flags, self.payload().len()) + zlib_stream(self.payload(), 9)
    }

    /// Returns a container without consensus blocks.
    pub fn new(program: Vec<u8>, subs: Subs) -> (f: MucasFile)
        ensures
            f@ == (FileView {
                program: program@,
                subs: bodies(subs@),
                flags: 0,
                consensus: vstd::map::Map::empty(),
            }),
            f.subs == subs,
            f.program == program,
    {
        MucasFile { program, subs, flags: 0x00, consensus: Consensus::new() }
    }

    /// Returns a container with consensus blocks; without any it is the same as
    /// from `new`.
    pub fn new_with_consensus(program: Vec<u8>, subs: Subs, consensus: Consensus) -> (f: MucasFile)
        ensures
            f@ == (FileView {
                program: program@,
                subs: bodies(subs@),
                flags: if consensus@ == vstd::map::Map::<Seq<u8>, Seq<u8>>::empty() {
                    0
                } else {
                    1
                },
                consensus: consensus@,
            }),
            f.is_listed(),
    {
        let ghost blocks = consensus@;
        let count: usize = consensus.len();
        proof {
            lemma_entries_map(consensus.listing());
            if count == 0 {
                assert(blocks =~= vstd::map::Map::<Seq<u8>, Seq<u8>>::empty());
            } else {
                assert(blocks.contains_key(consensus.listing()[0].0@));
            }
        }
        let flags: u8 = if count == 0 {
            0x00
        } else {
            FLAG_HAS_CONSENSUS
        };
        MucasFile { program, subs, flags, consensus }
    }

    fn build_payload(&self) -> (p: Vec<u8>)
        ensures
            p@ == self.payload(),
            is_listing(listing(bodies(self.subs@).dom()), bodies(self.subs@).dom()),
            keys_ascend(self.consensus.listing()),
            entries_map(self.consensus.listing()) == self.consensus@,
    {
        let mut p: Vec<u8> = Vec::new();
        let ghost blocks = self.consensus.listing();
        let n: usize = self.consensus.len();
        if n > 0 {
            push_le32(&mut p, (n as u64 % 0x1_0000_0000) as u32);
            let ghost head = p@;
            assert(head =~= le32_bytes(lo32(n as nat)));
            assert(p@ + blocks_from(blocks, 0) == head + blocks_from(blocks, 0));
            let mut k: usize = 0;
            while k < n
                invariant
                    n == blocks.len(),
                    blocks == self.consensus.listing(),
                    k <= n,
                    p@ + blocks_from(blocks, k as int) == head + blocks_from(blocks, 0),
                decreases n - k,
            {
                let ghost before = p@;
                let (key, block) = self.consensus.entry(k);
                p.push((key.len() % 256) as u8);
                append(&mut p, key.as_slice());
                push_le32(&mut p, (block.len() as u64 % 0x1_0000_0000) as u32);
                append(&mut p, block.as_slice());
                proof {
                    let rest = blocks_from(blocks, k + 1);
                    assert(p@ =~= before + block_bytes(key@, block@));
                    assert(p@ + rest =~= before + (block_bytes(key@, block@) + rest));
                }
                k = k + 1;
            }
            assert(p@ + Seq::<u8>::empty() =~= p@);
        }
        let ghost front = p@;
        let ids: Vec<u32> = sorted_ids(&self.subs);
        let ghost subs = bodies(self.subs@);
        assert(subs.dom() =~= self.subs@.dom());
        push_le32(&mut p, (ids.len() as u64 % 0x1_0000_0000) as u32);
        let ghost head = p@;
        let mut k: usize = 0;
        while k < ids.len()
            invariant
                k <= ids@.len(),
                subs == bodies(self.subs@),
                is_listing(ids@, self.subs@.dom()),
                p@ + macros_from(ids@, subs, k as int) == head + macros_from(ids@, subs, 0),
            decreases ids.len() - k,
        {
            let ghost before = p@;
            let id: u32 = ids[k];
            assert(ids@.contains(id));
            if let Some(body) = self.subs.get(&id) {
                push_le32(&mut p, id);
                push_le32(&mut p, (body.len() as u64 % 0x1_0000_0000) as u32);
                append(&mut p, body.as_slice());
                proof {
                    let rest = macros_from(ids@, subs, k + 1);
                    assert(p@ =~= before + macro_bytes(id, body@));
                    assert(p@ + rest =~= before + (macro_bytes(id, body@) + rest));
                }
            }
            k = k + 1;
        }
        assert(p@ + Seq::<u8>::empty() =~= p@);
        append(&mut p, self.program.as_slice());
        assert(p@ =~= self.payload());
        p
    }

    /// Returns the header and the deflated payload.
    fn seal(&self, payload: &Vec<u8>) -> (out: Vec<u8>)
        requires
            payload@ == self.payload(),
            is_listing(listing(bodies(self.subs@).dom()), bodies(self.subs@).dom()),
            keys_ascend(self.consensus.listing()),
            entries_map(self.consensus.listing()) == self.consensus@,
        ensures
            self.encodes(out@),
            self.is_sound() ==> read_file(out@) == Ok::<FileView, FormatError>(self@),
    {
        let packed: Vec<u8> = compress_zlib(payload.as_slice());
        let mut out: Vec<u8> = Vec::new();
        let magic: [u8; 4] = MAGIC;
        append(&mut out, magic.as_slice());
        out.push(VERSION);
        out.push(self.flags);
        push_le32(&mut out, (payload.len() as u64 % 0x1_0000_0000) as u32);
        assert(out@ =~= header_of(self.flags, payload@.len()));
        append(&mut out, packed.as_slice());
        proof {
            if self.is_sound() {
                lemma_entries_map(self.consensus.listing());
                lemma_payload_reads_back(
                    self.program@,
                    bodies(self.subs@),
                    self.consensus.listing(),
                    self.flags,
                );
                assert(out@.take(4) =~= seq![0x4Du8, 0x43, 0x41, 0x53]);
                assert(out@.subrange(6, 10) =~= le32_bytes(lo32(payload@.len())));
                assert(out@.skip(10) =~= packed@);
                lemma_le32(payload@.len());
            }
        }
        out
    }

    /// Returns the container as bytes: the header and the deflated payload.
    /// Whatever is sound reads back as it was.
    pub fn encode(&self) -> (out: Vec<u8>)
        ensures
            self.encodes(out@),
            self.is_sound() ==> read_file(out@) == Ok::<FileView, FormatError>(self@),
    {
        let payload: Vec<u8> = self.build_payload();
        self.seal(&payload)
    }

    /// Returns the container as bytes, or `None` if its payload is longer than
    /// the header can say.
    pub fn try_encode(&self) -> (r: Option<Vec<u8>>)
        ensures
            match r {
                Some(out) => self.payload().len() < 0x1_0000_0000 && self.encodes(out@) && (
                self.is_sound() ==> read_file(out@) == Ok::<FileView, FormatError>(self@)),
                None => self.payload().len() >= 0x1_0000_0000,
            },
    {
        let payload: Vec<u8> = self.build_payload();
        if payload.len() as u64 >= 0x1_0000_0000 {
            return None;
        }
        Some(self.seal(&payload))
    }

    /// Reads a container.
    pub fn decode(data: &[u8]) -> (r: Result<MucasFile, FormatError>)
        ensures
            match read_file(data@) {
                Ok(f) => r matches Ok(file) && file@ == f,
                Err(e) => r matches Err(err) && err == e,
            },
    {
        if data.len() < 10 {
            return Err(FormatError::TooShort);
        }
        let magic: [u8; 4] = MAGIC;
        assert(magic@ =~= seq![0x4Du8, 0x43, 0x41, 0x53]);
        assert(data@.subrange(0, 4) =~= data@.take(4));
        if !same(&data[0..4], magic.as_slice()) {
            return Err(FormatError::BadMagic);
        }
        if data[4] != VERSION {
            return Err(FormatError::UnsupportedVersion(data[4]));
        }
        let flags: u8 = data[5];
        let expected: usize = read_le32(data, 6) as usize;
        assert(data@.subrange(10, data@.len() as int) =~= data@.skip(10));
        let payload: Vec<u8> = match inflate(&data[10..data.len()]) {
            Some(payload) => payload,
            None => {
                return Err(FormatError::DecompressFailed);
            },
        };
        if payload.len() != expected {
            return Err(FormatError::LengthMismatch { expected, actual: payload.len() });
        }
        let (consensus, pos) = if flags % 2 == 1 {
            parse_consensus(payload.as_slice(), 0)?
        } else {
            (Consensus::new(), 0)
        };
        let (subs, start) = parse_subs_at(payload.as_slice(), pos)?;
        let program: Vec<u8> = copy_of(&payload.as_slice()[start..payload.len()]);
        assert(program@ =~= payload@.skip(start as int));
        Ok(MucasFile { program, subs, flags, consensus })
    }
}

/// A number written at a place reads back.
pub proof fn lemma_number_at(s: Seq<u8>, pos: nat, v: nat, rest: Seq<u8>)
    requires
        pos <= s.len(),
        s.skip(pos as int) == le32_bytes(v) + rest,
        v < 0x1_0000_0000,
    ensures
        number_at(s, pos) == Some(v),
        pos + 4 <= s.len(),
        s.skip((pos + 4) as int) == rest,
{
    lemma_le32(v);
    assert(s.skip(pos as int).len() == s.len() - pos);
    assert(s.len() == pos + 4 + rest.len());
    assert(s.subrange(pos as int, (pos + 4) as int) =~= s.skip(pos as int).take(4));
    assert((le32_bytes(v) + rest).take(4) =~= le32_bytes(v));
    assert(s.skip((pos + 4) as int) =~= s.skip(pos as int).skip(4));
    assert((le32_bytes(v) + rest).skip(4) =~= rest);
}

/// Consensus blocks read back as they were written.
#[verifier::rlimit(30)]
proof fn lemma_blocks_read_back(
    s: Seq<u8>,
    pos: nat,
    e: Seq<(Vec<u8>, Vec<u8>)>,
    k: int,
    rest: Seq<u8>,
)
    requires
        pos <= s.len(),
        0 <= k <= e.len(),
        s.len() < 0x1_0000_0000,
        s.skip(pos as int) == blocks_from(e, k) + rest,
        forall|i: int| 0 <= i < e.len() ==> (#[trigger] e[i]).0@.len() <= 255,
    ensures
        ({
            let end = (s.len() - rest.len()) as nat;
            &&& read_blocks(s, pos, (e.len() - k) as nat, entries_map(e.take(k))) == Some(
                (entries_map(e), end),
            )
            &&& end <= s.len()
            &&& s.skip(end as int) == rest
        }),
    decreases e.len() - k,
{
    if k >= e.len() {
        assert(blocks_from(e, k) + rest =~= rest);
        assert(s.len() == pos + rest.len());
        assert(e.take(k) =~= e);
    } else {
        let key = e[k].0@;
        let block = e[k].1@;
        let more = blocks_from(e, k + 1) + rest;
        let n = block.len();
        let tail = le32_bytes(lo32(n)) + (block + more);
        assert(s.skip(pos as int) =~= seq![key.len() as u8] + (key + tail));
        assert(s.len() == pos + 1 + key.len() + 4 + n + more.len());
        assert(s[pos as int] == s.skip(pos as int)[0]);
        let at = pos + 1 + key.len();
        assert(s.subrange((pos + 1) as int, at as int) =~= s.skip(pos as int).subrange(
            1,
            1 + key.len() as int,
        ));
        assert((seq![key.len() as u8] + (key + tail)).subrange(1, 1 + key.len() as int) =~= key);
        assert(s.skip(at as int) =~= s.skip(pos as int).skip(1 + key.len() as int));
        assert((seq![key.len() as u8] + (key + tail)).skip(1 + key.len() as int) =~= tail);
        lemma_number_at(s, at, n, block + more);
        let end = at + 4 + n;
        assert(s.subrange((at + 4) as int, end as int) =~= s.skip((at + 4) as int).take(n as int));
        assert((block + more).take(n as int) =~= block);
        assert(s.skip(end as int) =~= s.skip((at + 4) as int).skip(n as int));
        assert((block + more).skip(n as int) =~= more);
        assert(e.take(k + 1).drop_last() =~= e.take(k));
        assert(e.take(k + 1).last() == e[k]);
        lemma_blocks_read_back(s, end, e, k + 1, rest);
    }
}

/// The macros with the first `k` ids.
spec fn first_macros(
    ids: Seq<u32>,
    subs: vstd::map::Map<u32, Seq<u8>>,
    k: int,
) -> vstd::map::Map<u32, Seq<u8>>
    decreases k,
{
    if k <= 0 {
        vstd::map::Map::empty()
    } else {
        first_macros(ids, subs, k - 1).insert(ids[k - 1], subs[ids[k - 1]])
    }
}

proof fn lemma_first_macros(ids: Seq<u32>, subs: vstd::map::Map<u32, Seq<u8>>, k: int)
    requires
        0 <= k <= ids.len(),
    ensures
        forall|id: u32| #[trigger]
            first_macros(ids, subs, k).contains_key(id) <==> ids.take(k).contains(id),
        forall|id: u32| #[trigger]
            first_macros(ids, subs, k).contains_key(id) ==> first_macros(ids, subs, k)[id]
                == subs[id],
    decreases k,
{
    let now = first_macros(ids, subs, k);
    let b = ids.take(k);
    if k > 0 {
        lemma_first_macros(ids, subs, k - 1);
        let before = first_macros(ids, subs, k - 1);
        let last = ids[k - 1];
        assert(now == before.insert(last, subs[last]));
        let a = ids.take(k - 1);
        assert(b =~= a.push(last));
        assert forall|id: u32| #[trigger] now.contains_key(id) <==> b.contains(id) by {
            assert(before.contains_key(id) <==> a.contains(id));
            if a.contains(id) {
                let i = choose|i: int| 0 <= i < a.len() && a[i] == id;
                assert(b[i] == id);
            }
            if id == last {
                assert(b[k - 1] == id);
            }
        }
        assert forall|id: u32| #[trigger] now.contains_key(id) implies now[id] == subs[id] by {
            if id != last {
                assert(before.contains_key(id));
            }
        }
    } else {
        assert(now == vstd::map::Map::<u32, Seq<u8>>::empty());
    }
}

/// Macros read back as they were written.
proof fn lemma_macros_read_back(
    s: Seq<u8>,
    pos: nat,
    ids: Seq<u32>,
    subs: vstd::map::Map<u32, Seq<u8>>,
    k: int,
    rest: Seq<u8>,
)
    requires
        pos <= s.len(),
        0 <= k <= ids.len(),
        s.len() < 0x1_0000_0000,
        s.skip(pos as int) == macros_from(ids, subs, k) + rest,
    ensures
        ({
            let end = (s.len() - rest.len()) as nat;
            &&& read_macros(s, pos, (ids.len() - k) as nat, first_macros(ids, subs, k)) == Some(
                (first_macros(ids, subs, ids.len() as int), end),
            )
            &&& end <= s.len()
            &&& s.skip(end as int) == rest
        }),
    decreases ids.len() - k,
{
    if k >= ids.len() {
        assert(macros_from(ids, subs, k) + rest =~= rest);
        assert(s.len() == pos + rest.len());
    } else {
        let id = ids[k];
        let body = subs[id];
        let n = body.len();
        let more = macros_from(ids, subs, k + 1) + rest;
        assert(s.skip(pos as int) =~= le32_bytes(id as nat) + (le32_bytes(lo32(n)) + (body
            + more)));
        assert(s.len() == pos + 8 + n + more.len());
        lemma_number_at(s, pos, id as nat, le32_bytes(lo32(n)) + (body + more));
        lemma_number_at(s, pos + 4, n, body + more);
        let end = pos + 8 + n;
        assert(s.subrange((pos + 8) as int, end as int) =~= s.skip((pos + 8) as int).take(n as int));
        assert((body + more).take(n as int) =~= body);
        assert(s.skip(end as int) =~= s.skip((pos + 8) as int).skip(n as int));
        assert((body + more).skip(n as int) =~= more);
        lemma_macros_read_back(s, end, ids, subs, k + 1, rest);
    }
}

/// A payload reads back as it was written.
proof fn lemma_payload_reads_back(
    program: Seq<u8>,
    subs: vstd::map::Map<u32, Seq<u8>>,
    blocks: Seq<(Vec<u8>, Vec<u8>)>,
    flags: u8,
)
    requires
        keys_ascend(blocks),
        is_listing(listing(subs.dom()), subs.dom()),
        flags % 2 == 1 <==> entries_map(blocks) != vstd::map::Map::<Seq<u8>, Seq<u8>>::empty(),
        forall|key: Seq<u8>| #[trigger] entries_map(blocks).contains_key(key) ==> key.len() <= 255,
        payload_of(program, subs, blocks).len() < 0x1_0000_0000,
    ensures
        read_payload(payload_of(program, subs, blocks), flags) == Some(
            FileView { program, subs, flags, consensus: entries_map(blocks) },
        ),
{
    let s = payload_of(program, subs, blocks);
    let ids = listing(subs.dom());
    let tail = le32_bytes(lo32(ids.len())) + macros_from(ids, subs, 0) + program;
    lemma_entries_map(blocks);
    assert forall|i: int| 0 <= i < blocks.len() implies (#[trigger] blocks[i]).0@.len() <= 255 by {
        assert(entries_map(blocks).contains_key(blocks[i].0@));
    }
    lemma_sections_len(ids, subs, 0);
    lemma_blocks_len(blocks, 0);
    let pos: nat;
    if blocks.len() == 0 {
        assert(entries_map(blocks) =~= vstd::map::Map::<Seq<u8>, Seq<u8>>::empty());
        assert(s =~= tail);
        pos = 0;
        assert(s.skip(0) =~= s);
    } else {
        assert(entries_map(blocks).contains_key(blocks[0].0@));
        let rest = blocks_from(blocks, 0) + tail;
        assert(s.skip(0) =~= le32_bytes(lo32(blocks.len())) + rest);
        lemma_number_at(s, 0, blocks.len(), rest);
        assert(entries_map(blocks.take(0)) =~= vstd::map::Map::empty());
        lemma_blocks_read_back(s, 4, blocks, 0, tail);
        pos = (s.len() - tail.len()) as nat;
    }
    assert(read_consensus(s, flags) == Some((entries_map(blocks), pos)));
    assert(s.skip(pos as int) == tail);
    let rest = macros_from(ids, subs, 0) + program;
    assert(tail =~= le32_bytes(lo32(ids.len())) + rest);
    lemma_number_at(s, pos, ids.len(), rest);
    lemma_macros_read_back(s, pos + 4, ids, subs, 0, program);
    lemma_first_macros(ids, subs, ids.len() as int);
    assert(ids.take(ids.len() as int) =~= ids);
    assert(first_macros(ids, subs, ids.len() as int) =~= subs);
}

/// Each macro takes at least eight bytes.
proof fn lemma_sections_len(ids: Seq<u32>, subs: vstd::map::Map<u32, Seq<u8>>, k: int)
    requires
        0 <= k <= ids.len(),
    ensures
        macros_from(ids, subs, k).len() >= 8 * (ids.len() - k),
    decreases ids.len() - k,
{
    if k < ids.len() {
        lemma_sections_len(ids, subs, k + 1);
    }
}

/// Each consensus block takes at least five bytes.
proof fn lemma_blocks_len(e: Seq<(Vec<u8>, Vec<u8>)>, k: int)
    requires
        0 <= k <= e.len(),
    ensures
        blocks_from(e, k).len() >= 5 * (e.len() - k),
    decreases e.len() - k,
{
    if k < e.len() {
        lemma_blocks_len(e, k + 1);
    }
}

/// Listings that hold the same spell the same bytes.
proof fn lemma_blocks_same(a: Seq<(Vec<u8>, Vec<u8>)>, b: Seq<(Vec<u8>, Vec<u8>)>, k: int)
    requires
        a.len() == b.len(),
        forall|i: int|
            0 <= i < a.len() ==> (#[trigger] a[i]).0@ == b[i].0@ && a[i].1@ == b[i].1@,
    ensures
        blocks_from(a, k) == blocks_from(b, k),
    decreases a.len() - k,
{
    if 0 <= k < a.len() {
        lemma_blocks_same(a, b, k + 1);
        assert(a[k].0@ == b[k].0@ && a[k].1@ == b[k].1@);
    }
}

/// Containers that hold the same have the same payload.
pub proof fn payloads_are_determined(f: MucasFile, g: MucasFile)
    requires
        f@ == g@,
        f.is_listed(),
        g.is_listed(),
    ensures
        f.payload() == g.payload(),
{
    let (a, b) = (f.consensus.listing(), g.consensus.listing());
    listings_agree(a, b);
    lemma_blocks_same(a, b, 0);
}

} // verus!
