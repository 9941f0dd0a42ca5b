//! Where what stands in containers and archives.

use vstd::prelude::*;
use vstd::utf8::encode_utf8;
use crate::archive::{
    archive_header, entry_bytes, lemma_head_reads_back, place_behind, read_archive_header,
    read_entry, read_head, unpacked, ArchiveError, EntryHead, Method,
};
use crate::bytes::lemma_le32_len;
use crate::deflate::zlib_contents;
use crate::format::{block_bytes, header_of, macro_bytes, read_file, read_payload, FormatError};
use crate::laws::codes::{
    fixed_numbers_add_up_their_bytes, fixed_numbers_have_their_lowest_byte_first,
};
use crate::laws::transforms::number_in;
use crate::tokens::lo32;

verus! {

broadcast use crate::bytes::lemma_le32_len;

/// An archive starts with "MCAR", its version, a zero and the number of its entries.
pub proof fn archives_start_with_their_header(count: u32)
    ensures
        ({
            let s = archive_header(count);
            &&& s.len() == 10
            &&& s[0] == 0x4D && s[1] == 0x43 && s[2] == 0x41 && s[3] == 0x52
            &&& s[4] == 1 && s[5] == 0
            &&& number_in(s, 6) == count
        }),
{
    fixed_numbers_have_their_lowest_byte_first(count as nat);
}

/// An archive is refused where it is too short for its header, where its mark is
/// another, and where its version is. Else it has as many entries as the header says.
pub proof fn archive_headers_are_checked(s: Seq<u8>)
    ensures
        s.len() < 10 ==> read_archive_header(s) == Err::<u32, ArchiveError>(ArchiveError::TooShort),
        s.len() >= 10 && !(s[0] == 0x4D && s[1] == 0x43 && s[2] == 0x41 && s[3] == 0x52)
            ==> read_archive_header(s) == Err::<u32, ArchiveError>(ArchiveError::BadMagic),
        s.len() >= 10 && s[0] == 0x4D && s[1] == 0x43 && s[2] == 0x41 && s[3] == 0x52 && s[4] != 1
            ==> read_archive_header(s) == Err::<u32, ArchiveError>(
            ArchiveError::UnsupportedVersion(s[4]),
        ),
        s.len() >= 10 && s[0] == 0x4D && s[1] == 0x43 && s[2] == 0x41 && s[3] == 0x52 && s[4] == 1
            ==> (read_archive_header(s) matches Ok(n) && n == number_in(s, 6)),
{
    if s.len() >= 10 {
        let mark = s.take(4);
        let want = seq![0x4Du8, 0x43, 0x41, 0x52];
        assert(mark[0] == s[0] && mark[1] == s[1] && mark[2] == s[2] && mark[3] == s[3]);
        if s[0] == 0x4D && s[1] == 0x43 && s[2] == 0x41 && s[3] == 0x52 {
            assert(mark =~= want);
        } else {
            assert(mark != want);
        }
        fixed_numbers_add_up_their_bytes(s.subrange(6, 10));
    }
}

/// An entry is the length of its path in two bytes, the path, the number of its
/// method, its size before packing in eight bytes and after it in four, and the
/// packed bytes.
pub proof fn entries_have_their_fields_in_order(
    path: Seq<u8>,
    method: Method,
    original: nat,
    packed: Seq<u8>,
)
    requires
        path.len() < 0x1_0000,
        original < 0x1_0000_0000_0000_0000,
        packed.len() < 0x1_0000_0000,
    ensures
        ({
            let s = entry_bytes(path, method, original, packed);
            let n = path.len() as int;
            &&& s.len() == 15 + n + packed.len()
            &&& s[0] + 0x100 * s[1] == n
            &&& s.subrange(2, 2 + n) == path
            &&& method == Method::Store ==> s[2 + n] == 0
            &&& method == Method::Zlib ==> s[2 + n] == 1
            &&& method == Method::MuCAS ==> s[2 + n] == 2
            &&& number_in(s, 3 + n) + 0x1_0000_0000 * number_in(s, 7 + n) == original
            &&& number_in(s, 11 + n) == packed.len()
            &&& s.skip(15 + n) == packed
        }),
{
    let s = entry_bytes(path, method, original, packed);
    let n = path.len() as int;
    fixed_numbers_have_their_lowest_byte_first(path.len());
    fixed_numbers_have_their_lowest_byte_first(original);
    fixed_numbers_have_their_lowest_byte_first(packed.len());
    assert(path.len() % 0x1_0000 == path.len());
    assert(lo32(packed.len()) == packed.len());
    let (a, b, c) = (
        crate::bytes::le16_bytes(path.len()),
        crate::bytes::le64_bytes(original),
        crate::bytes::le32_bytes(packed.len()),
    );
    let kind = seq![method.byte()];
    assert(s == a + path + kind + b + c + packed);
    assert(s[0] == a[0] && s[1] == a[1]);
    assert(s.subrange(2, 2 + n) =~= path);
    assert(s[2 + n] == method.byte());
    assert(s[3 + n] == b[0] && s[4 + n] == b[1] && s[5 + n] == b[2] && s[6 + n] == b[3]);
    assert(s[7 + n] == b[4] && s[8 + n] == b[5] && s[9 + n] == b[6] && s[10 + n] == b[7]);
    assert(s[11 + n] == c[0] && s[12 + n] == c[1] && s[13 + n] == c[2] && s[14 + n] == c[3]);
    assert(s.skip(15 + n) =~= packed);
}

/// The numbers of the methods.
pub proof fn methods_have_their_numbers(b: u8)
    ensures
        b == 0 ==> Method::of_byte(b) == Ok::<Method, ArchiveError>(Method::Store),
        b == 1 ==> Method::of_byte(b) == Ok::<Method, ArchiveError>(Method::Zlib),
        b == 2 ==> Method::of_byte(b) == Ok::<Method, ArchiveError>(Method::MuCAS),
        b > 2 ==> Method::of_byte(b) == Err::<Method, ArchiveError>(ArchiveError::UnknownMethod(b)),
{
}

/// A container starts with "MCAS", its version, its flags and the length of its
/// payload before it was deflated.
pub proof fn containers_start_with_their_header(flags: u8, n: nat)
    requires
        n < 0x1_0000_0000,
    ensures
        ({
            let s = header_of(flags, n);
            &&& s.len() == 10
            &&& s[0] == 0x4D && s[1] == 0x43 && s[2] == 0x41 && s[3] == 0x53
            &&& s[4] == 1 && s[5] == flags
            &&& number_in(s, 6) == n
        }),
{
    fixed_numbers_have_their_lowest_byte_first(n);
    assert(lo32(n) == n);
}

/// A container is refused where it is too short for its header, where its mark is
/// another, where its version is, where its payload does not inflate, and where the
/// payload has another length than the header says.
pub proof fn container_headers_are_checked(s: Seq<u8>)
    ensures
        s.len() < 10 ==> (read_file(s) matches Err(e) && e == FormatError::TooShort),
        s.len() >= 10 && !(s[0] == 0x4D && s[1] == 0x43 && s[2] == 0x41 && s[3] == 0x53) ==> (
        read_file(s) matches Err(e) && e == FormatError::BadMagic),
        s.len() >= 10 && s[0] == 0x4D && s[1] == 0x43 && s[2] == 0x41 && s[3] == 0x53 && s[4] != 1
            ==> (read_file(s) matches Err(e) && e == FormatError::UnsupportedVersion(s[4])),
        s.len() >= 10 && s[0] == 0x4D && s[1] == 0x43 && s[2] == 0x41 && s[3] == 0x53 && s[4] == 1
            ==> match zlib_contents(s.skip(10)) {
            None => read_file(s) matches Err(e) && e == FormatError::DecompressFailed,
            Some(payload) => payload.len() != number_in(s, 6) && payload.len() <= usize::MAX ==> (
            read_file(s) matches Err(e) && e == FormatError::LengthMismatch {
                expected: number_in(s, 6) as usize,
                actual: payload.len() as usize,
            }),
        },
{
    if s.len() >= 10 {
        let mark = s.take(4);
        let want = seq![0x4Du8, 0x43, 0x41, 0x53];
        assert(mark[0] == s[0] && mark[1] == s[1] && mark[2] == s[2] && mark[3] == s[3]);
        if s[0] == 0x4D && s[1] == 0x43 && s[2] == 0x41 && s[3] == 0x53 {
            assert(mark =~= want);
        } else {
            assert(mark != want);
        }
        fixed_numbers_add_up_their_bytes(s.subrange(6, 10));
    }
}

/// Behind the header of a container stands its payload as a zlib stream, and the
/// container holds what the payload does. One whose payload cannot be read is too short.
pub proof fn containers_hold_what_their_payload_does(
    flags: u8,
    payload: Seq<u8>,
    stream: Seq<u8>,
)
    requires
        zlib_contents(stream) == Some(payload),
        payload.len() < 0x1_0000_0000,
    ensures
        read_file(header_of(flags, payload.len()) + stream) == (match read_payload(payload, flags) {
            Some(f) => Ok(f),
            None => Err(FormatError::TooShort),
        }),
{
    let n = payload.len();
    let head = header_of(flags, n);
    let s = head + stream;
    containers_start_with_their_header(flags, n);
    assert(s.take(4) =~= seq![0x4Du8, 0x43, 0x41, 0x53]);
    assert(s.skip(10) =~= stream);
    fixed_numbers_add_up_their_bytes(s.subrange(6, 10));
    assert(s.subrange(6, 10) =~= head.subrange(6, 10));
    fixed_numbers_add_up_their_bytes(head.subrange(6, 10));
}

/// A macro is its id, its length and its body.
pub proof fn macros_stand_behind_id_and_length(id: u32, body: Seq<u8>)
    requires
        body.len() < 0x1_0000_0000,
    ensures
        ({
            let s = macro_bytes(id, body);
            &&& s.len() == 8 + body.len()
            &&& number_in(s, 0) == id
            &&& number_in(s, 4) == body.len()
            &&& s.skip(8) == body
        }),
{
    fixed_numbers_have_their_lowest_byte_first(id as nat);
    fixed_numbers_have_their_lowest_byte_first(body.len());
    assert(lo32(body.len()) == body.len());
    assert(macro_bytes(id, body).skip(8) =~= body);
}

/// A block is the length of its key in one byte, its key, its length and itself.
pub proof fn blocks_stand_behind_key_and_length(key: Seq<u8>, block: Seq<u8>)
    requires
        key.len() < 256,
        block.len() < 0x1_0000_0000,
    ensures
        ({
            let s = block_bytes(key, block);
            let n = key.len() as int;
            &&& s.len() == 5 + n + block.len()
            &&& s[0] == n
            &&& s.subrange(1, 1 + n) == key
            &&& number_in(s, 1 + n) == block.len()
            &&& s.skip(5 + n) == block
        }),
{
    fixed_numbers_have_their_lowest_byte_first(block.len());
    assert(lo32(block.len()) == block.len());
    let s = block_bytes(key, block);
    let n = key.len() as int;
    assert(s.subrange(1, 1 + n) =~= key);
    assert(s.skip(5 + n) =~= block);
}

/// Behind whatever stands before it, an entry is read as it was written: its path,
/// its method, its sizes, and where its packed bytes start. Reading goes on behind it,
/// also where it does not unpack.
pub proof fn entries_are_read_as_they_were_written(
    before: Seq<u8>,
    path: Seq<char>,
    method: Method,
    original: nat,
    packed: Seq<u8>,
    behind: Seq<u8>,
    index: usize,
)
    requires
        encode_utf8(path).len() < 0x1_0000,
        original < 0x1_0000_0000_0000_0000,
        packed.len() < 0x1_0000_0000,
    ensures
        ({
            let entry = entry_bytes(encode_utf8(path), method, original, packed);
            let s = before + entry + behind;
            let at = before.len() + 15 + encode_utf8(path).len();
            &&& read_head(s, before.len(), index) matches Ok(h) && h.path == path && h.method
                == method && h.original == original && h.size == packed.len() && h.at == at
            &&& place_behind(s, before.len()) == before.len() + entry.len()
            &&& unpacked(method, packed) is None ==> read_entry(s, before.len(), index) == Err::<
                (Seq<char>, Method, Seq<u8>, nat),
                ArchiveError,
            >(
                if method == Method::MuCAS {
                    ArchiveError::MuCASDecompressFailed { index }
                } else {
                    ArchiveError::EntryDecompressFailed { index }
                },
            )
            &&& unpacked(method, packed) matches Some(out) ==> read_entry(s, before.len(), index)
                == Ok::<(Seq<char>, Method, Seq<u8>, nat), ArchiveError>(
                (path, method, out, before.len() + entry.len()),
            )
        }),
{
    let bytes = encode_utf8(path);
    let entry = entry_bytes(bytes, method, original, packed);
    let s = before + entry + behind;
    assert(s.skip(before.len() as int) =~= entry + behind);
    lemma_head_reads_back(
        s,
        before.len(),
        index,
        path,
        method,
        original,
        packed,
        behind,
    );
    entries_have_their_fields_in_order(bytes, method, original, packed);
}

/// Where an archive ends inside the head of an entry or inside its packed bytes, the
/// entry is too short, and all that is left counts as read.
pub proof fn cut_entries_are_too_short(s: Seq<u8>, pos: nat, index: usize)
    requires
        pos <= s.len(),
        s.len() < pos + 2 || s.len() < pos + 2 + s[pos as int] + 0x100 * s[pos as int + 1],
    ensures
        read_head(s, pos, index) == Err::<EntryHead, ArchiveError>(ArchiveError::TooShort),
        place_behind(s, pos) == s.len(),
{
    if s.len() >= pos + 2 {
        fixed_numbers_add_up_their_bytes(s.subrange(pos as int, (pos + 2) as int));
    }
}

/// An entry whose head was read and whose packed bytes are cut is too short too.
pub proof fn cut_contents_are_too_short(s: Seq<u8>, pos: nat, index: usize)
    requires
        read_head(s, pos, index) matches Ok(h) && h.at + h.size > s.len(),
    ensures
        read_entry(s, pos, index) == Err::<(Seq<char>, Method, Seq<u8>, nat), ArchiveError>(
            ArchiveError::TooShort,
        ),
        place_behind(s, pos) == s.len(),
{
}

} // verus!
