//! The write path: packing files into a fresh archive.
//!
//! The packer assigns sequential block offsets, compresses payloads
//! selected by extension, derives every key from the output base name and
//! the salt, and serializes the encrypted header, entry table and
//! payloads into one byte image.

use vstd::prelude::*;

verus! {

use crate::common::EntryV;
use crate::common::FileEntry;
use crate::common::FLAG_ALL_ENCRYPTED;
use crate::common::FLAG_HEAD_ENCRYPTED;
use crate::common::FileHeader;
use crate::common::align1024;
use crate::common::byte_sum;
use crate::common::entries_key_of;
use crate::common::entry_ok;
use crate::common::header_bytes;
use crate::common::header_key_of;
use crate::common::header_ok;
use crate::common::lemma_byte_sum_bounds;
use crate::common::payload_region_start;
use crate::common::views_of;
use crate::encryption::Snow2Encoder;
use crate::encryption::base_units;
use crate::encryption::encrypt_stream;
use crate::encryption::gen_entries_key;
use crate::encryption::gen_file_key;
use crate::encryption::gen_entries_offset;
use crate::encryption::gen_header_key;
use crate::encryption::gen_header_offset;
use crate::encryption::pad4;
use crate::encryption::spec_entries_offset;
use crate::encryption::spec_header_offset;
use crate::encryption::word_bytes;
use crate::errors::CodecError;
use crate::extract::file_key_of;
use crate::text::lemma_utf16_encode_len;
use crate::text::utf16_encode;
use crate::text::utf16_units;
use crate::zlib::deflate_zlib;
use crate::zlib::zlib_deflate;
use vstd::wrapping::u32_specs;

/// One file handed to the packer: its archive path and its contents.
pub struct PackFile {
    pub name: String,
    pub data: Vec<u8>,
}

/// The payload encryption policy of a pack run.
#[derive(Clone, Copy, Debug, PartialEq, Eq, Structural)]
pub enum PackEncryption {
    /// Payloads stored as they are.
    Plain,
    /// Payloads fully encrypted with the per-entry file key.
    All,
    /// Only the first 1024 bytes of each payload encrypted.
    Head,
}

/// UTF-16 code units serialized as little-endian byte pairs.
pub open spec fn bytes_of_u16s(w: Seq<u16>) -> Seq<u8> {
    Seq::new(
        2 * w.len(),
        |i: int|
            if i % 2 == 0 {
                (w[i / 2] % 0x100) as u8
            } else {
                (w[i / 2] / 0x100) as u8
            },
    )
}

/// One entry's serialization: name length in code units, UTF-16LE name,
/// checksum, flags, offset, original size, raw size, 16 key bytes.
#[verifier::opaque]
pub open spec fn entry_bytes(e: EntryV) -> Seq<u8> {
    let units = utf16_encode(e.name);
    word_bytes(units.len() as u32) + bytes_of_u16s(units) + word_bytes(e.checksum) + word_bytes(
        e.flags,
    ) + word_bytes(e.offset) + word_bytes(e.original_size) + word_bytes(e.raw_size) + e.key
}

/// The whole entry table's serialization.
#[verifier::opaque]
pub open spec fn entries_blob(es: Seq<EntryV>) -> Seq<u8>
    decreases es.len(),
{
    if es.len() == 0 {
        Seq::empty()
    } else {
        entry_bytes(es[0]) + entries_blob(es.skip(1))
    }
}

/// Appends the four little-endian bytes of a word.
fn push_le_u32(v: &mut Vec<u8>, x: u32)
    ensures
        final(v)@ == old(v)@ + word_bytes(x),
{
    let ghost v0 = old(v)@;
    v.push((x % 0x100) as u8);
    v.push(((x / 0x100) % 0x100) as u8);
    v.push(((x / 0x10000) % 0x100) as u8);
    v.push(((x / 0x1000000) % 0x100) as u8);
    proof {
        assert(v@ =~= v0 + word_bytes(x));
    }
}

/// Appends code units as little-endian byte pairs.
fn push_units(v: &mut Vec<u8>, units: &Vec<u16>)
    ensures
        final(v)@ == old(v)@ + bytes_of_u16s(units@),
{
    let ghost v0 = old(v)@;
    let n = units.len();
    let mut i: usize = 0;
    while i < n
        invariant
            n == units@.len(),
            i <= n,
            v@.len() == v0.len() + 2 * i,
            v@ == v0 + bytes_of_u16s(units@).take(2 * i as int),
        decreases n - i,
    {
        let u = units[i];
        v.push((u % 0x100) as u8);
        v.push((u / 0x100) as u8);
        proof {
            assert(bytes_of_u16s(units@)[2 * i as int] == (u % 0x100) as u8);
            assert(bytes_of_u16s(units@)[2 * i as int + 1] == (u / 0x100) as u8);
            assert(v@ =~= v0 + bytes_of_u16s(units@).take(2 * (i + 1)));
        }
        i = i + 1;
    }
    proof {
        assert(bytes_of_u16s(units@).take(2 * n as int) =~= bytes_of_u16s(units@));
    }
}

/// Serializes one entry record.
fn entry_plain_bytes(e: &FileEntry) -> (r: Vec<u8>)
    requires
        e.key@.len() == 16,
        utf16_encode(e.name@).len() <= 4096,
    ensures
        r@ == entry_bytes(e@),
{
    let units = utf16_units(e.name.as_str());
    let mut out: Vec<u8> = Vec::new();
    push_le_u32(&mut out, units.len() as u32);
    push_units(&mut out, &units);
    push_le_u32(&mut out, e.checksum);
    push_le_u32(&mut out, e.flags);
    push_le_u32(&mut out, e.offset);
    push_le_u32(&mut out, e.original_size);
    push_le_u32(&mut out, e.raw_size);
    let mut i: usize = 0;
    let ghost before_key = out@;
    while i < 16
        invariant
            e.key@.len() == 16,
            i <= 16,
            out@ == before_key + e.key@.take(i as int),
        decreases 16 - i,
    {
        out.push(e.key[i]);
        proof {
            assert(out@ =~= before_key + e.key@.take(i + 1));
        }
        i = i + 1;
    }
    proof {
        reveal(entry_bytes);
        assert(e.key@.take(16) =~= e.key@);
        assert(out@ =~= entry_bytes(e@));
    }
    out
}

/// Encrypts a plain byte stream under a 128-byte key, padding the tail
/// word with zeros.
fn encrypt_with(key: &Vec<u8>, plain: &Vec<u8>) -> (r: Vec<u8>)
    requires
        key@.len() == 128,
    ensures
        r@ == encrypt_stream(key@, pad4(plain@)),
        r@.len() == pad4(plain@).len(),
        plain@.len() <= r@.len() <= plain@.len() + 3,
{
    let mut enc = Snow2Encoder::new(key);
    enc.write(plain.as_slice());
    let out = enc.end_encoding();
    proof {
        assert(Seq::<u8>::empty() + plain@ =~= plain@);
        crate::encryption::lemma_encrypt_len(key@, pad4(plain@));
    }
    out
}

/// Overwrites `bytes.len()` bytes of `buf` at `off`.
fn write_at(buf: &mut Vec<u8>, off: usize, bytes: &Vec<u8>)
    requires
        off + bytes@.len() <= old(buf)@.len(),
    ensures
        final(buf)@.len() == old(buf)@.len(),
        final(buf)@.subrange(off as int, off + bytes@.len()) == bytes@,
        forall|j: int|
            0 <= j < old(buf)@.len() && !(off <= j < off + bytes@.len()) ==> final(buf)@[j] == old(
                buf,
            )@[j],
{
    let n = bytes.len();
    let mut i: usize = 0;
    while i < n
        invariant
            n == bytes@.len(),
            off + n <= buf@.len(),
            i <= n,
            buf@.len() == old(buf)@.len(),
            forall|j: int| 0 <= j < i ==> buf@[off + j] == bytes@[j],
            forall|j: int|
                0 <= j < old(buf)@.len() && !(off <= j < off + i) ==> buf@[j] == old(buf)@[j],
        decreases n - i,
    {
        proof {
            vstd::std_specs::vec::axiom_spec_len(buf);
        }
        buf.set(off + i, bytes[i]);
        i = i + 1;
    }
    proof {
        assert(buf@.subrange(off as int, off + bytes@.len()) =~= bytes@);
    }
}

/// Where the final extension begins: just after the last `'.'`; zero
/// when there is no dot at all.
pub open spec fn ext_cut(s: Seq<char>) -> int
    decreases s.len(),
{
    if s.len() == 0 {
        0
    } else if s.last() == '.' {
        s.len() as int
    } else {
        ext_cut(s.drop_last())
    }
}

/// ASCII case folding on one character.
pub open spec fn lower_char(c: char) -> char {
    if 'A' <= c && c <= 'Z' {
        (((c as u32) + 32) as char)
    } else {
        c
    }
}

/// The lowercased final extension of a name; empty when the name holds no
/// dot.
pub open spec fn ext_of(s: Seq<char>) -> Seq<char> {
    if ext_cut(s) == 0 {
        Seq::empty()
    } else {
        s.skip(ext_cut(s)).map_values(|c: char| lower_char(c))
    }
}

/// Whether a name's extension is in the compression set.
pub open spec fn should_compress(name: Seq<char>, exts: Seq<Seq<char>>) -> bool {
    exts.contains(ext_of(name)) && ext_of(name).len() > 0
}

/// The lowercased final extension of a name.
fn ext_of_exec(name: &str) -> (r: Vec<char>)
    ensures
        r@ == ext_of(name@),
{
    let n = name.unicode_len();
    let mut cut: usize = n;
    let mut found = false;
    proof {
        assert(name@.take(n as int) =~= name@);
    }
    while !found && cut > 0
        invariant
            cut <= n,
            n == name@.len(),
            found ==> ext_cut(name@) == cut,
            !found ==> ext_cut(name@) == ext_cut(name@.take(cut as int)),
        decreases cut + (if found {
            0int
        } else {
            1int
        }),
    {
        let c = name.get_char(cut - 1);
        proof {
            assert(name@.take(cut as int).last() == name@[cut - 1]);
        }
        if c == '.' {
            found = true;
            proof {
                assert(ext_cut(name@.take(cut as int)) == cut);
            }
        } else {
            proof {
                assert(name@.take(cut as int).drop_last() =~= name@.take(cut - 1));
            }
            cut = cut - 1;
        }
    }
    proof {
        if !found {
            assert(cut == 0);
            assert(name@.take(0) =~= Seq::<char>::empty());
        }
        assert(ext_cut(name@) == cut);
    }
    if cut == 0 {
        let r: Vec<char> = Vec::new();
        proof {
            assert(r@ =~= ext_of(name@));
        }
        return r;
    }
    let start = cut;
    let mut out: Vec<char> = Vec::new();
    let mut i = start;
    while i < n
        invariant
            start <= i <= n,
            n == name@.len(),
            out@ == name@.subrange(start as int, i as int).map_values(|c: char| lower_char(c)),
        decreases n - i,
    {
        let c = name.get_char(i);
        let lc = if 'A' <= c && c <= 'Z' {
            proof {
                vstd::utf8::char_is_scalar(c);
            }
            crate::text::char_from_u32(c as u32 + 32).unwrap()
        } else {
            c
        };
        out.push(lc);
        proof {
            assert(lc == lower_char(name@[i as int]));
            assert(out@ =~= name@.subrange(start as int, i + 1).map_values(
                |c: char| lower_char(c),
            ));
        }
        i = i + 1;
    }
    proof {
        assert(name@.subrange(start as int, n as int) =~= name@.skip(ext_cut(name@)));
    }
    out
}

/// Whether two character vectors spell the same string.
fn chars_eq_str(cs: &Vec<char>, s: &String) -> (r: bool)
    ensures
        r == (cs@ == s@),
{
    let sl = s.as_str();
    let n = sl.unicode_len();
    if cs.len() != n {
        proof {
            assert(cs@.len() != s@.len());
        }
        return false;
    }
    let mut i: usize = 0;
    while i < n
        invariant
            i <= n,
            n == s@.len(),
            cs@.len() == n,
            sl@ == s@,
            forall|j: int| 0 <= j < i ==> cs@[j] == s@[j],
        decreases n - i,
    {
        if cs[i] != sl.get_char(i) {
            return false;
        }
        i = i + 1;
    }
    proof {
        assert(cs@ =~= s@);
    }
    true
}

/// Whether the lowercased extension occurs in the compression set.
fn ext_in_set(name: &str, exts: &Vec<String>) -> (r: bool)
    ensures
        r == should_compress(name@, exts@.map_values(|s: String| s@)),
{
    let ext = ext_of_exec(name);
    if ext.len() == 0 {
        proof {
            assert(ext_of(name@).len() == 0);
        }
        return false;
    }
    let n = exts.len();
    let mut i: usize = 0;
    while i < n
        invariant
            i <= n,
            n == exts@.len(),
            ext@ == ext_of(name@),
            ext@.len() > 0,
            forall|j: int| 0 <= j < i ==> (#[trigger] exts@[j])@ != ext_of(name@),
        decreases n - i,
    {
        if chars_eq_str(&ext, &exts[i]) {
            proof {
                assert(exts@.map_values(|s: String| s@)[i as int] == ext_of(name@));
                assert(exts@.map_values(|s: String| s@).contains(ext_of(name@)));
            }
            return true;
        }
        i = i + 1;
    }
    proof {
        let pats = exts@.map_values(|s: String| s@);
        assert forall|j: int| 0 <= j < pats.len() implies pats[j] != ext_of(name@) by {
            assert(pats[j] == exts@[j]@);
        }
        assert(!pats.contains(ext_of(name@)));
    }
    false
}


/// Appends zeros until the image reaches `target` bytes.
fn pad_zeros_to(arch: &mut Vec<u8>, target: usize)
    requires
        old(arch)@.len() <= target,
    ensures
        final(arch)@.len() == target,
        final(arch)@.subrange(0, old(arch)@.len() as int) == old(arch)@,
        forall|j: int| old(arch)@.len() <= j < target ==> final(arch)@[j] == 0u8,
{
    while arch.len() < target
        invariant
            old(arch)@.len() <= arch@.len() <= target,
            arch@.subrange(0, old(arch)@.len() as int) == old(arch)@,
            forall|j: int| old(arch)@.len() <= j < arch@.len() ==> arch@[j] == 0u8,
        decreases target - arch@.len(),
    {
        let ghost before = arch@;
        arch.push(0u8);
        proof {
            assert(arch@.subrange(0, old(arch)@.len() as int) =~= before.subrange(
                0,
                old(arch)@.len() as int,
            ));
        }
    }
}

/// Appends a piece to the image.
fn append_bytes(arch: &mut Vec<u8>, piece: &Vec<u8>)
    ensures
        final(arch)@ == old(arch)@ + piece@,
{
    let n = piece.len();
    let mut i: usize = 0;
    while i < n
        invariant
            n == piece@.len(),
            i <= n,
            arch@ == old(arch)@ + piece@.take(i as int),
        decreases n - i,
    {
        arch.push(piece[i]);
        proof {
            assert(arch@ =~= old(arch)@ + piece@.take(i + 1));
        }
        i = i + 1;
    }
    proof {
        assert(piece@.take(n as int) =~= piece@);
    }
}

/// The stored (possibly compressed) content of an input file.
#[verifier::opaque]
pub open spec fn content_of(data: Seq<u8>, name: Seq<char>, exts: Seq<Seq<char>>) -> Seq<u8> {
    if should_compress(name, exts) {
        zlib_deflate(data, 6)
    } else {
        data
    }
}

/// Whether head encryption can apply to a stored size: the encrypted head
/// must cover whole cipher words.
pub open spec fn head_applies(raw: int) -> bool {
    raw > 0 && (raw >= 1024 || raw % 4 == 0)
}

/// The flag word the packer assigns.
#[verifier::opaque]
pub open spec fn flags_of(compress: bool, enc: PackEncryption, raw: int) -> u32 {
    ((if compress {
        1u32
    } else {
        0u32
    }) + (if enc is All {
        2u32
    } else {
        0u32
    }) + (if enc is Head && head_applies(raw) {
        4u32
    } else {
        0u32
    })) as u32
}

/// The bytes written to the payload region for an entry.
#[verifier::opaque]
pub open spec fn stored_of(e: EntryV, content: Seq<u8>) -> Seq<u8> {
    if e.flags & FLAG_ALL_ENCRYPTED != 0 {
        encrypt_stream(file_key_of(e.name, e.key), pad4(content))
    } else if e.flags & FLAG_HEAD_ENCRYPTED != 0 {
        let dl = if content.len() < 1024 {
            content.len() as int
        } else {
            1024
        };
        encrypt_stream(file_key_of(e.name, e.key), content.take(dl)) + content.skip(dl)
    } else {
        content
    }
}

/// Whether one input file can be packed: a usable name and sizes that
/// fit the 32-bit fields.
#[verifier::opaque]
pub open spec fn pack_file_ok(f: PackFile, exts: Seq<Seq<char>>) -> bool {
    &&& 0 < utf16_encode(f.name@).len() <= 4096
    &&& f.data@.len() < 0x100000000
    &&& content_of(f.data@, f.name@, exts).len() < 0x100000000
}

/// The payload blocks one file's stored content occupies.
#[verifier::opaque]
pub open spec fn blocks_of(f: PackFile, exts: Seq<Seq<char>>) -> int {
    (content_of(f.data@, f.name@, exts).len() as int + 1023) / 1024
}

/// The total payload blocks of an input list.
#[verifier::opaque]
pub open spec fn total_blocks(files: Seq<PackFile>, exts: Seq<Seq<char>>) -> int
    decreases files.len(),
{
    if files.len() == 0 {
        0
    } else {
        blocks_of(files[0], exts) + total_blocks(files.skip(1), exts)
    }
}

proof fn lemma_total_blocks_nonneg(files: Seq<PackFile>, exts: Seq<Seq<char>>)
    ensures
        total_blocks(files, exts) >= 0,
    decreases files.len(),
{
    reveal(total_blocks);
    reveal(blocks_of);
    if files.len() > 0 {
        lemma_total_blocks_nonneg(files.skip(1), exts);
    }
}

/// The serialized entry-table length of an input list.
#[verifier::opaque]
pub open spec fn table_len(files: Seq<PackFile>) -> int
    decreases files.len(),
{
    if files.len() == 0 {
        0
    } else {
        40 + 2 * utf16_encode(files[0].name@).len() + table_len(files.skip(1))
    }
}

/// A length rounded up to whole cipher words.
pub open spec fn ceil4(n: int) -> int {
    4 * ((n + 3) / 4)
}

/// Whether the assembled image fits the 32-bit block field and this
/// machine.
#[verifier::opaque]
pub open spec fn pack_fits(files: Seq<PackFile>, name: Seq<char>, exts: Seq<Seq<char>>) -> bool {
    let eoff = spec_header_offset(base_units(name)) + spec_entries_offset(base_units(name));
    &&& total_blocks(files, exts) <= 0xFFFFFFFF
    &&& eoff + ceil4(table_len(files)) <= 0xFFFFFFFFFFFF
    &&& align1024(eoff + ceil4(table_len(files))) + 1024 * total_blocks(files, exts)
        <= usize::MAX - 8500
}

/// The serialization length of an entry table, record by record.
#[verifier::opaque]
pub open spec fn entries_len(es: Seq<EntryV>) -> int
    decreases es.len(),
{
    if es.len() == 0 {
        0
    } else {
        40 + 2 * utf16_encode(es[0].name).len() + entries_len(es.skip(1))
    }
}

/// The table blob's length is the sum of its records' lengths.
proof fn lemma_entries_blob_len(es: Seq<EntryV>)
    requires
        forall|k: int| 0 <= k < es.len() ==> (#[trigger] es[k]).key.len() == 16,
    ensures
        entries_blob(es).len() == entries_len(es),
    decreases es.len(),
{
    reveal(entries_blob);
    reveal(entry_bytes);
    reveal(entries_len);
    if es.len() > 0 {
        assert(es.skip(1).len() == es.len() - 1);
        assert(forall|k: int| 0 <= k < es.skip(1).len() ==> (#[trigger] es.skip(1)[k]).key.len()
            == 16);
        lemma_entries_blob_len(es.skip(1));
        assert(entry_bytes(es[0]).len() == 40 + 2 * utf16_encode(es[0].name).len());
    }
}

/// Pointwise-named entries serialize to the input list's table length.
proof fn lemma_entries_len_match(es: Seq<EntryV>, files: Seq<PackFile>)
    requires
        es.len() == files.len(),
        forall|i: int| 0 <= i < es.len() ==> (#[trigger] es[i]).name == files[i].name@,
    ensures
        entries_len(es) == table_len(files),
    decreases es.len(),
{
    reveal(entries_len);
    reveal(table_len);
    if es.len() > 0 {
        assert(forall|i: int|
            0 <= i < es.skip(1).len() ==> (#[trigger] es.skip(1)[i]).name == files.skip(
                1,
            )[i].name@);
        lemma_entries_len_match(es.skip(1), files.skip(1));
    }
}

/// A padded stream's length is its word-rounded length.
proof fn lemma_pad4_len(b: Seq<u8>)
    ensures
        pad4(b).len() == ceil4(b.len() as int),
{
    assert(pad4(b).len() == ceil4(b.len() as int)) by (nonlinear_arith)
        requires
            pad4(b).len() == if b.len() % 4 == 0 {
                b.len() as int
            } else {
                b.len() + (4 - b.len() % 4)
            },
    ;
}

/// A word-padded size always fits the blocks that a block-rounded size
/// occupies.
proof fn lemma_stored_fits(raw: int)
    requires
        raw >= 0,
    ensures
        raw <= 4 * ((raw + 3) / 4),
        4 * ((raw + 3) / 4) <= 1024 * ((raw + 1023) / 1024),
{
    assert(raw <= 4 * ((raw + 3) / 4) && 4 * ((raw + 3) / 4) <= 1024 * ((raw + 1023) / 1024))
        by (nonlinear_arith)
        requires
            raw >= 0,
    ;
}

/// Builds one entry record and its stored payload piece, at a given block
/// offset.
///
/// When the name's UTF-16 form and every size fit their on-disk fields the
/// build succeeds; `EntryNameLength` reports an unusable name and
/// `IoShort` a size beyond the 32-bit fields.
fn build_entry(
    file: &PackFile,
    skey: &str,
    compress_exts: &Vec<String>,
    enc: PackEncryption,
    offset: u32,
) -> (r: Result<(FileEntry, Vec<u8>), CodecError>)
    ensures
        r is Ok ==> ({
            let e = (r->Ok_0).0@;
            let exts = compress_exts@.map_values(|s: String| s@);
            let content = content_of(file.data@, file.name@, exts);
            &&& e.name == file.name@
            &&& e.offset == offset
            &&& e.original_size == file.data@.len()
            &&& e.raw_size == content.len()
            &&& e.flags == flags_of(should_compress(file.name@, exts), enc, content.len() as int)
            &&& entry_ok(e)
            &&& e.key.len() == 16
            &&& 0 < utf16_encode(e.name).len() <= 4096
            &&& (r->Ok_0).1@ == stored_of(e, content)
            &&& (r->Ok_0).1@.len() <= ((e.raw_size + 1023) / 1024) * 1024
        }),
        r is Err ==> (r->Err_0 == CodecError::EntryNameLength || r->Err_0 == CodecError::IoShort),
        r is Err && r->Err_0 == CodecError::EntryNameLength ==> !(0 < utf16_encode(
            file.name@,
        ).len() <= 4096),
        r is Err && r->Err_0 == CodecError::IoShort ==> !pack_file_ok(
            *file,
            compress_exts@.map_values(|s: String| s@),
        ),
        pack_file_ok(*file, compress_exts@.map_values(|s: String| s@)) ==> r is Ok,
{
    let units = utf16_units(file.name.as_str());
    if units.len() == 0 || units.len() > 4096 {
        proof {
            reveal(pack_file_ok);
        }
        return Err(CodecError::EntryNameLength);
    }
    proof {
        crate::text::lemma_utf16_encode_len(file.name@);
    }
    if file.data.len() as u64 >= 0x100000000u64 {
        proof {
            reveal(pack_file_ok);
        }
        return Err(CodecError::IoShort);
    }
    let ghost exts = compress_exts@.map_values(|s: String| s@);
    let compress = ext_in_set(file.name.as_str(), compress_exts);
    let content: Vec<u8> = if compress {
        deflate_zlib(&file.data, 6)
    } else {
        vstd::slice::slice_to_vec(file.data.as_slice())
    };
    proof {
        reveal(content_of);
        assert(content@ == content_of(file.data@, file.name@, exts));
    }
    if content.len() as u64 >= 0x100000000u64 {
        proof {
            reveal(pack_file_ok);
        }
        return Err(CodecError::IoShort);
    }
    proof {
        reveal(pack_file_ok);
    }
    let raw_size = content.len() as u32;
    let original_size = file.data.len() as u32;
    // deterministic per-entry key material from the entry name and salt
    let full_key = gen_entries_key(file.name.as_str(), skey);
    let mut key2: Vec<u8> = Vec::new();
    let mut k: usize = 0;
    while k < 16
        invariant
            full_key@.len() == 128,
            k <= 16,
            key2@ == full_key@.take(k as int),
        decreases 16 - k,
    {
        key2.push(full_key[k]);
        proof {
            assert(key2@ =~= full_key@.take(k + 1));
        }
        k = k + 1;
    }
    let head_ok = raw_size > 0 && (raw_size >= 1024 || raw_size % 4 == 0);
    let flags: u32 = (if compress {
        1u32
    } else {
        0u32
    }) + (match enc {
        PackEncryption::All => 2u32,
        PackEncryption::Head => {
            if head_ok {
                4u32
            } else {
                0u32
            }
        },
        PackEncryption::Plain => 0u32,
    });
    proof {
        reveal(flags_of);
        assert(flags == flags_of(compress, enc, raw_size as int));
        let cb: bool = compress;
        let ab: bool = enc is All;
        let hb: bool = enc is Head && head_applies(raw_size as int);
        assert((flags & 2u32 != 0 <==> ab) && (flags & 4u32 != 0 <==> hb)) by (bit_vector)
            requires
                flags == (if cb {
                    1u32
                } else {
                    0u32
                }) + (if ab {
                    2u32
                } else {
                    0u32
                }) + (if hb {
                    4u32
                } else {
                    0u32
                }),
        ;
        assert(flags & FLAG_ALL_ENCRYPTED == flags & 2u32);
        assert(flags & FLAG_HEAD_ENCRYPTED == flags & 4u32);
    }
    let key_sum = crate::common::sum_bytes_wrapping_pub(&key2);
    let checksum = flags.wrapping_add(offset).wrapping_add(original_size).wrapping_add(
        raw_size,
    ).wrapping_add(key_sum);
    proof {
        lemma_byte_sum_bounds(key2@);
        crate::common::lemma_wrapping_sum_chain_pub(
            flags,
            offset,
            original_size,
            raw_size,
            byte_sum(key2@),
        );
    }
    let entry = FileEntry {
        name: file.name.clone(),
        checksum,
        flags,
        offset,
        original_size,
        raw_size,
        key: key2,
    };
    let fkey = gen_file_key(entry.name.as_str(), &entry.key);
    proof {
        assert(fkey@ =~= file_key_of(entry.name@, entry.key@));
    }
    let stored: Vec<u8> = if flags & FLAG_ALL_ENCRYPTED != 0 {
        encrypt_with(&fkey, &content)
    } else if flags & FLAG_HEAD_ENCRYPTED != 0 {
        let dl = if content.len() < 1024 {
            content.len()
        } else {
            1024
        };
        let head_part = vstd::slice::slice_to_vec(
            vstd::slice::slice_subrange(content.as_slice(), 0, dl),
        );
        proof {
            assert(head_part@ =~= content@.take(dl as int));
            assert(head_part@.len() % 4 == 0);
            assert(pad4(head_part@) == head_part@);
        }
        let mut sp = encrypt_with(&fkey, &head_part);
        let m = content.len();
        let ghost enc_head = sp@;
        let mut t = dl;
        while t < m
            invariant
                dl <= t <= m,
                m == content@.len(),
                sp@ == enc_head + content@.subrange(dl as int, t as int),
            decreases m - t,
        {
            sp.push(content[t]);
            proof {
                assert(sp@ =~= enc_head + content@.subrange(dl as int, t + 1));
            }
            t = t + 1;
        }
        proof {
            assert(content@.subrange(dl as int, m as int) =~= content@.skip(dl as int));
        }
        sp
    } else {
        content
    };
    proof {
        reveal(stored_of);
        assert(stored@ == stored_of(entry@, content_of(file.data@, file.name@, exts)));
        lemma_stored_fits(raw_size as int);
        assert(stored@.len() <= ((raw_size + 1023) as int / 1024) * 1024) by {
            assert(stored@.len() <= 4 * ((raw_size + 3) as int / 4));
        }
    }
    Ok((entry, stored))
}

/// Pads the image with zeros to `target` and appends a payload piece
/// there, leaving everything before `target` as it was.
fn place_piece(arch: &mut Vec<u8>, target: usize, piece: &Vec<u8>)
    requires
        old(arch)@.len() <= target,
        target + piece@.len() <= usize::MAX,
    ensures
        final(arch)@.len() == target + piece@.len(),
        final(arch)@.subrange(0, old(arch)@.len() as int) == old(arch)@,
        final(arch)@.subrange(target as int, target + piece@.len()) == piece@,
        forall|a: int, b: int|
            0 <= a <= b <= old(arch)@.len() ==> final(arch)@.subrange(a, b) == old(
                arch,
            )@.subrange(a, b),
{
    pad_zeros_to(arch, target);
    append_bytes(arch, piece);
    proof {
        assert(arch@.subrange(0, old(arch)@.len() as int) =~= old(arch)@);
        assert(arch@.subrange(target as int, target + piece@.len()) =~= piece@);
        assert forall|a: int, b: int| 0 <= a <= b <= old(arch)@.len() implies arch@.subrange(a, b)
            == old(arch)@.subrange(a, b) by {
            assert(arch@.subrange(a, b) =~= old(arch)@.subrange(a, b));
        }
    }
}

/// Writes every payload piece at its block offset after `pstart`,
/// zero-padding the gaps.
#[verifier::rlimit(100)]
fn assemble_payloads(
    arch: &mut Vec<u8>,
    entries: &Vec<FileEntry>,
    pieces: &Vec<Vec<u8>>,
    pstart: u64,
    next_block: u64,
)
    requires
        entries@.len() == pieces@.len(),
        forall|j: int|
            0 <= j < entries@.len() ==> (#[trigger] pieces@[j])@.len() <= ((entries@[j]@.raw_size
                + 1023) / 1024) * 1024,
        forall|j: int|
            0 <= j < entries@.len() ==> (#[trigger] entries@[j])@.offset == (if j == 0 {
                0int
            } else {
                entries@[j - 1]@.offset + (entries@[j - 1]@.raw_size + 1023) / 1024
            }),
        entries@.len() > 0 ==> next_block == entries@[entries@.len() - 1]@.offset + (entries@[
        entries@.len() - 1]@.raw_size + 1023) / 1024,
        entries@.len() == 0 ==> next_block == 0,
        old(arch)@.len() <= pstart,
        pstart + next_block * 1024 <= usize::MAX as u64 - 8500,
    ensures
        final(arch)@.len() >= old(arch)@.len(),
        final(arch)@.subrange(0, old(arch)@.len() as int) == old(arch)@,
        forall|j: int|
            0 <= j < entries@.len() ==> {
                let st = pstart + (#[trigger] entries@[j])@.offset * 1024;
                &&& st + pieces@[j]@.len() <= final(arch)@.len()
                &&& final(arch)@.subrange(st as int, st + pieces@[j]@.len()) == pieces@[j]@
            },
{
    let n = entries.len();
    let ghost arch_meta = old(arch)@;
    let mut wi: usize = 0;
    while wi < n
        invariant
            n == entries@.len(),
            n == pieces@.len(),
            wi <= n,
            arch_meta == old(arch)@,
            arch_meta.len() <= pstart,
            pstart + next_block * 1024 <= usize::MAX as u64 - 8500,
            forall|j: int|
                0 <= j < n ==> (#[trigger] pieces@[j])@.len() <= ((entries@[j]@.raw_size + 1023)
                    / 1024) * 1024,
            forall|j: int|
                0 <= j < n ==> (#[trigger] entries@[j])@.offset == (if j == 0 {
                    0int
                } else {
                    entries@[j - 1]@.offset + (entries@[j - 1]@.raw_size + 1023) / 1024
                }),
            n > 0 ==> next_block == entries@[n - 1]@.offset + (entries@[n - 1]@.raw_size + 1023)
                / 1024,
            n == 0 ==> next_block == 0,
            wi < n ==> arch@.len() <= pstart + entries@[wi as int]@.offset * 1024,
            arch@.len() <= pstart + next_block * 1024,
            arch@.len() >= arch_meta.len(),
            arch@.subrange(0, arch_meta.len() as int) == arch_meta,
            forall|j: int|
                0 <= j < wi ==> {
                    let st = pstart + (#[trigger] entries@[j])@.offset * 1024;
                    &&& st + pieces@[j]@.len() <= arch@.len()
                    &&& arch@.subrange(st as int, st + pieces@[j]@.len()) == pieces@[j]@
                },
        decreases n - wi,
    {
        proof {
            lemma_offsets_monotone(entries@, wi as int, next_block as int);
        }
        let ghost before = arch@;
        let e_off = entries[wi].offset;
        let target128: u128 = pstart as u128 + e_off as u128 * 1024;
        proof {
            assert(entries@[wi as int]@.offset * 1024 <= next_block * 1024) by (nonlinear_arith)
                requires
                    0 <= entries@[wi as int]@.offset <= next_block,
            ;
            assert(pieces@[wi as int]@.len() + entries@[wi as int]@.offset * 1024 <= next_block
                * 1024) by (nonlinear_arith)
                requires
                    pieces@[wi as int]@.len() <= ((entries@[wi as int]@.raw_size + 1023) / 1024)
                        * 1024,
                    entries@[wi as int]@.offset + (entries@[wi as int]@.raw_size + 1023) / 1024
                        <= next_block,
                    0 <= entries@[wi as int]@.offset,
            ;
        }
        let target = target128 as usize;
        place_piece(arch, target, &pieces[wi]);
        proof {
            let piece = pieces@[wi as int]@;
            assert(arch@.subrange(0, arch_meta.len() as int) =~= arch_meta);
            assert forall|j: int| 0 <= j < wi implies {
                let st = pstart + (#[trigger] entries@[j])@.offset * 1024;
                &&& st + pieces@[j]@.len() <= arch@.len()
                &&& arch@.subrange(st as int, st + pieces@[j]@.len()) == pieces@[j]@
            } by {
                let st = pstart + entries@[j]@.offset * 1024;
                assert(st + pieces@[j]@.len() <= before.len());
            }
            if wi + 1 < n {
                assert(arch@.len() <= pstart + entries@[wi as int + 1]@.offset * 1024)
                    by (nonlinear_arith)
                    requires
                        arch@.len() == pstart + entries@[wi as int]@.offset * 1024 + pieces@[
                        wi as int]@.len(),
                        pieces@[wi as int]@.len() <= ((entries@[wi as int]@.raw_size + 1023)
                            / 1024) * 1024,
                        entries@[wi as int + 1]@.offset == entries@[wi as int]@.offset + (
                        entries@[wi as int]@.raw_size + 1023) / 1024,
                ;
            }
        }
        wi = wi + 1;
    }
}

/// Serializes the whole entry table.
fn build_blob(entries: &Vec<FileEntry>) -> (r: Vec<u8>)
    requires
        forall|j: int|
            0 <= j < entries@.len() ==> (#[trigger] entries@[j])@.key.len() == 16 && utf16_encode(
                entries@[j]@.name,
            ).len() <= 4096,
    ensures
        r@ == entries_blob(views_of(entries@)),
{
    let n = entries.len();
    let mut blob: Vec<u8> = Vec::new();
    let mut bi: usize = 0;
    proof {
        reveal(entries_blob_prefix);
        assert(blob@ =~= entries_blob_prefix(views_of(entries@), 0));
    }
    while bi < n
        invariant
            n == entries@.len(),
            bi <= n,
            forall|j: int|
                0 <= j < n ==> (#[trigger] entries@[j])@.key.len() == 16 && utf16_encode(
                    entries@[j]@.name,
                ).len() <= 4096,
            blob@ == entries_blob_prefix(views_of(entries@), bi as int),
        decreases n - bi,
    {
        let piece = entry_plain_bytes(&entries[bi]);
        append_bytes(&mut blob, &piece);
        proof {
            lemma_entries_blob_prefix_step(views_of(entries@), bi as int);
        }
        bi = bi + 1;
    }
    proof {
        lemma_entries_blob_prefix_full(views_of(entries@));
    }
    blob
}

/// Whether the serialized image fits the machine bound.
#[verifier::opaque]
pub open spec fn assemble_fits(name: Seq<char>, es: Seq<EntryV>, nb: int) -> bool {
    let eoff = spec_header_offset(base_units(name)) + spec_entries_offset(base_units(name));
    let elen = ceil4(entries_blob(es).len() as int);
    &&& eoff + elen <= 0xFFFFFFFFFFFF
    &&& align1024(eoff + elen) + 1024 * nb <= usize::MAX - 8500
}

/// Serializes the whole archive image from built entries and payload
/// pieces.
#[verifier::rlimit(100)]
fn assemble_image(
    entries: &Vec<FileEntry>,
    pieces: &Vec<Vec<u8>>,
    name: &str,
    skey: &str,
    next_block: u64,
) -> (r: Result<Vec<u8>, CodecError>)
    requires
        name@.len() > 0,
        entries@.len() == pieces@.len(),
        entries@.len() < 50000,
        next_block <= 0xFFFFFFFF,
        forall|j: int|
            0 <= j < entries@.len() ==> (#[trigger] entries@[j])@.key.len() == 16 && 0
                < utf16_encode(entries@[j]@.name).len() <= 4096,
        forall|j: int|
            0 <= j < entries@.len() ==> (#[trigger] pieces@[j])@.len() <= ((entries@[j]@.raw_size
                + 1023) / 1024) * 1024,
        forall|j: int|
            0 <= j < entries@.len() ==> (#[trigger] entries@[j])@.offset == (if j == 0 {
                0int
            } else {
                entries@[j - 1]@.offset + (entries@[j - 1]@.raw_size + 1023) / 1024
            }),
        entries@.len() > 0 ==> next_block == entries@[entries@.len() - 1]@.offset + (entries@[
        entries@.len() - 1]@.raw_size + 1023) / 1024,
        entries@.len() == 0 ==> next_block == 0,
    ensures
        r is Ok ==> ({
            let arch = r->Ok_0@;
            let hoff = spec_header_offset(base_units(name@));
            let eoff = hoff + spec_entries_offset(base_units(name@));
            let blob = entries_blob(views_of(entries@));
            let elen = pad4(blob).len();
            let pstart = align1024(eoff + elen);
            let n = entries@.len();
            &&& arch.len() >= eoff + elen
            &&& arch.subrange(hoff, hoff + 12) == encrypt_stream(
                header_key_of(name@, skey@),
                pad4(
                    header_bytes(
                        FileHeader {
                            checksum: u32_specs::wrapping_add(2u32, n as u32),
                            version: 2u8,
                            file_cnt: n as u32,
                        },
                    ),
                ),
            )
            &&& arch.subrange(eoff, eoff + elen) == encrypt_stream(
                entries_key_of(name@, skey@),
                pad4(blob),
            )
            &&& (forall|j: int|
                0 <= j < n ==> {
                    let st = pstart + (#[trigger] entries@[j])@.offset * 1024;
                    &&& st + pieces@[j]@.len() <= arch.len()
                    &&& arch.subrange(st, st + pieces@[j]@.len()) == pieces@[j]@
                })
        }),
        r is Err ==> r->Err_0 == CodecError::IoShort && !assemble_fits(
            name@,
            views_of(entries@),
            next_block as int,
        ),
        assemble_fits(name@, views_of(entries@), next_block as int) ==> r is Ok,
{
    let n = entries.len();
    let hoff = gen_header_offset(name);
    let eoff_rel = gen_entries_offset(name);
    let eoff = hoff + eoff_rel;
    let header = FileHeader {
        checksum: 2u32.wrapping_add(n as u32),
        version: 2,
        file_cnt: n as u32,
    };
    let mut hplain: Vec<u8> = Vec::new();
    push_le_u32(&mut hplain, header.checksum);
    hplain.push(header.version);
    push_le_u32(&mut hplain, header.file_cnt);
    proof {
        assert(hplain@ =~= header_bytes(header));
    }
    let hkey = gen_header_key(name, skey);
    let ekey = gen_entries_key(name, skey);
    proof {
        assert(hkey@ =~= header_key_of(name@, skey@));
        assert(ekey@ =~= entries_key_of(name@, skey@));
    }
    let enc_header = encrypt_with(&hkey, &hplain);
    proof {
        assert(pad4(header_bytes(header)).len() == 12);
        assert(enc_header@.len() == 12);
    }
    let blob = build_blob(entries);
    let enc_entries = encrypt_with(&ekey, &blob);
    let elen = enc_entries.len();
    proof {
        reveal(assemble_fits);
        lemma_pad4_len(blob@);
        assert(elen == ceil4(entries_blob(views_of(entries@)).len() as int));
    }
    let eoff_end128: u128 = eoff as u128 + elen as u128;
    if eoff_end128 > 0xFFFFFFFFFFFFu128 {
        return Err(CodecError::IoShort);
    }
    let eoff_end: u64 = eoff_end128 as u64;
    let pstart: u64 = payload_region_start(eoff_end);
    let total: u64 = pstart + next_block * 1024;
    if total > usize::MAX as u64 - 8500 {
        return Err(CodecError::IoShort);
    }
    let mut arch: Vec<u8> = Vec::new();
    pad_zeros_to(&mut arch, hoff);
    append_bytes(&mut arch, &enc_header);
    proof {
        assert(arch@.len() == hoff + 12);
        assert(arch@.subrange(hoff as int, hoff + 12) =~= enc_header@);
    }
    let ghost a2 = arch@;
    pad_zeros_to(&mut arch, eoff);
    proof {
        assert(arch@.subrange(hoff as int, hoff + 12) =~= a2.subrange(hoff as int, hoff + 12));
    }
    let ghost a3 = arch@;
    append_bytes(&mut arch, &enc_entries);
    proof {
        assert(arch@.subrange(hoff as int, hoff + 12) =~= a3.subrange(hoff as int, hoff + 12));
        assert(arch@.subrange(eoff as int, eoff + elen) =~= enc_entries@);
        assert(arch@.len() == eoff + elen);
    }
    let ghost a4 = arch@;
    assemble_payloads(&mut arch, entries, pieces, pstart, next_block);
    proof {
        assert(arch@.subrange(hoff as int, hoff + 12) =~= a4.subrange(hoff as int, hoff + 12));
        assert(arch@.subrange(eoff as int, eoff + elen) =~= a4.subrange(eoff as int, eoff + elen));
    }
    Ok(arch)
}

/// Sequentially assigned offsets never pass the total block count.
proof fn lemma_offsets_monotone(es: Seq<FileEntry>, i: int, total: int)
    requires
        0 <= i < es.len(),
        forall|j: int|
            0 <= j < es.len() ==> (#[trigger] es[j])@.offset == (if j == 0 {
                0int
            } else {
                es[j - 1]@.offset + (es[j - 1]@.raw_size + 1023) / 1024
            }),
        total == es[es.len() - 1]@.offset + (es[es.len() - 1]@.raw_size + 1023) / 1024,
    ensures
        es[i]@.offset + (es[i]@.raw_size + 1023) / 1024 <= total,
        es[i]@.offset <= total,
    decreases es.len() - i,
{
    if i < es.len() - 1 {
        lemma_offsets_monotone(es, i + 1, total);
    }
}

/// Builds every entry record and payload piece, assigning sequential
/// block offsets.
#[verifier::rlimit(100)]
fn build_entries(
    files: &Vec<PackFile>,
    skey: &str,
    compress_exts: &Vec<String>,
    enc: PackEncryption,
) -> (r: Result<(Vec<FileEntry>, Vec<Vec<u8>>, u64), CodecError>)
    requires
        files@.len() < 50000,
    ensures
        r is Err ==> (r->Err_0 == CodecError::EntryNameLength || r->Err_0 == CodecError::IoShort),
        r is Err && r->Err_0 == CodecError::EntryNameLength ==> (exists|i: int|
            0 <= i < files@.len() && !(0 < utf16_encode((#[trigger] files@[i]).name@).len()
                <= 4096)),
        r is Err && r->Err_0 == CodecError::IoShort ==> (!(forall|i: int|
            0 <= i < files@.len() ==> pack_file_ok(
                #[trigger] files@[i],
                compress_exts@.map_values(|s: String| s@),
            )) || total_blocks(files@, compress_exts@.map_values(|s: String| s@)) > 0xFFFFFFFF),
        (forall|i: int|
            0 <= i < files@.len() ==> pack_file_ok(
                #[trigger] files@[i],
                compress_exts@.map_values(|s: String| s@),
            )) && total_blocks(files@, compress_exts@.map_values(|s: String| s@)) <= 0xFFFFFFFF
            ==> r is Ok,
        r is Ok ==> ({
            let entries = (r->Ok_0).0@;
            let pieces = (r->Ok_0).1@;
            let next_block = (r->Ok_0).2;
            let exts = compress_exts@.map_values(|s: String| s@);
            let n = files@.len();
            &&& entries.len() == n
            &&& pieces.len() == n
            &&& next_block <= 0xFFFFFFFF
            &&& next_block == total_blocks(files@, exts)
            &&& (forall|j: int|
                0 <= j < n ==> {
                    let e = (#[trigger] entries[j])@;
                    let content = content_of(files@[j].data@, files@[j].name@, exts);
                    &&& e.name == files@[j].name@
                    &&& e.original_size == files@[j].data@.len()
                    &&& e.raw_size == content.len()
                    &&& e.flags == flags_of(
                        should_compress(files@[j].name@, exts),
                        enc,
                        content.len() as int,
                    )
                    &&& entry_ok(e)
                    &&& e.key.len() == 16
                    &&& 0 < utf16_encode(e.name).len() <= 4096
                    &&& pieces[j]@ == stored_of(e, content)
                    &&& pieces[j]@.len() <= ((e.raw_size + 1023) / 1024) * 1024
                })
            &&& (forall|j: int|
                0 <= j < n ==> (#[trigger] entries[j])@.offset == (if j == 0 {
                    0int
                } else {
                    entries[j - 1]@.offset + (entries[j - 1]@.raw_size + 1023) / 1024
                }))
            &&& (n > 0 ==> next_block == entries[n - 1]@.offset + (entries[n - 1]@.raw_size
                + 1023) / 1024)
            &&& (n == 0 ==> next_block == 0)
        }),
{
    let ghost exts = compress_exts@.map_values(|s: String| s@);
    let ghost name: Seq<char> = Seq::empty();
    let n = files.len();
    let mut entries: Vec<FileEntry> = Vec::new();
    let mut pieces: Vec<Vec<u8>> = Vec::new();
    let mut next_block: u64 = 0;
    let mut i: usize = 0;
    proof {
        assert(files@.skip(0) =~= files@);
    }
    while i < n
        invariant
            n == files@.len(),
            n < 50000,
            i <= n,
            exts == compress_exts@.map_values(|s: String| s@),
            entries@.len() == i,
            pieces@.len() == i,
            next_block <= 0xFFFFFFFF,
            next_block + total_blocks(files@.skip(i as int), exts) == total_blocks(files@, exts),
            forall|j: int|
                0 <= j < i ==> {
                    let e = (#[trigger] entries@[j])@;
                    let content = content_of(files@[j].data@, files@[j].name@, exts);
                    &&& e.name == files@[j].name@
                    &&& e.original_size == files@[j].data@.len()
                    &&& e.raw_size == content.len()
                    &&& e.flags == flags_of(
                        should_compress(files@[j].name@, exts),
                        enc,
                        content.len() as int,
                    )
                    &&& entry_ok(e)
                    &&& e.key.len() == 16
                    &&& 0 < utf16_encode(e.name).len() <= 4096
                    &&& pieces@[j]@ == stored_of(e, content)
                    &&& pieces@[j]@.len() <= ((e.raw_size + 1023) / 1024) * 1024
                },
            forall|j: int|
                0 <= j < i ==> (#[trigger] entries@[j])@.offset == (if j == 0 {
                    0int
                } else {
                    entries@[j - 1]@.offset + (entries@[j - 1]@.raw_size + 1023) / 1024
                }),
            i > 0 ==> next_block == entries@[i - 1]@.offset + (entries@[i - 1]@.raw_size + 1023)
                / 1024,
            i == 0 ==> next_block == 0,
        decreases n - i,
    {
        let file = &files[i];
        let ghost pre = files@.skip(i as int);
        proof {
            reveal(total_blocks);
            reveal(blocks_of);
            assert(pre[0] == files@[i as int]);
            assert(pre.skip(1) =~= files@.skip(i + 1));
            assert(files@[i as int] == *file);
        }
        let (entry, stored) = match build_entry(file, skey, compress_exts, enc, next_block as u32)
        {
            Ok(p) => p,
            Err(e) => {
                proof {
                    reveal(pack_file_ok);
                    if e == CodecError::EntryNameLength {
                        assert(!(0 < utf16_encode(files@[i as int].name@).len() <= 4096));
                        assert(!pack_file_ok(files@[i as int], exts));
                    } else {
                        assert(!pack_file_ok(files@[i as int], exts));
                    }
                }
                return Err(e);
            },
        };
        let blocks: u64 = ((entry.raw_size as u64) + 1023) / 1024;
        proof {
            assert(blocks == blocks_of(files@[i as int], exts));
        }
        if next_block + blocks > 0xFFFFFFFFu64 {
            proof {
                lemma_total_blocks_nonneg(files@.skip(i + 1), exts);
                assert(total_blocks(files@, exts) > 0xFFFFFFFF);
            }
            return Err(CodecError::IoShort);
        }
        proof {
            assert(entry.offset == next_block);
        }
        entries.push(entry);
        pieces.push(stored);
        next_block = next_block + blocks;
        i = i + 1;
    }
    proof {
        reveal(total_blocks);
        assert(files@.skip(n as int) =~= Seq::<PackFile>::empty());
        assert(next_block == total_blocks(files@, exts));
    }
    Ok((entries, pieces, next_block))
}

/// Packs the given files into a fresh archive image.
///
/// The archive's keys and offsets are derived from the final file-name
/// component of `output_fname` and the salt.  Payloads whose lowercased
/// extension is in `compress_exts` are zlib-compressed; `enc` selects the
/// payload encryption policy.  Per-entry key material is derived
/// deterministically from the entry name and the salt.  Head encryption is
/// downgraded to plain storage when the stored head cannot cover whole
/// cipher words.  Returns the image together with the entry records it
/// holds.
///
/// Errors: `InvalidPath` for an unusable output name, `EntryNameLength`
/// for a name whose UTF-16 form is empty or over 4096 units, and `IoShort`
/// when a size exceeds what the 32-bit fields or this machine can hold.
#[verifier::rlimit(100)]
pub fn run_pack(
    files: &Vec<PackFile>,
    output_fname: &str,
    skey: &str,
    compress_exts: &Vec<String>,
    enc: PackEncryption,
) -> (r: Result<(Vec<u8>, Vec<FileEntry>), CodecError>)
    requires
        files@.len() < 50000,
    ensures
        r is Ok ==> ({
            let arch = (r->Ok_0).0@;
            let es = (r->Ok_0).1@;
            let name = crate::common::spec_basename(output_fname@);
            let exts = compress_exts@.map_values(|s: String| s@);
            let hoff = spec_header_offset(base_units(name));
            let eoff = hoff + spec_entries_offset(base_units(name));
            let blob = entries_blob(views_of(es));
            let elen = pad4(blob).len();
            let pstart = align1024(eoff + elen);
            let n = files@.len();
            &&& es.len() == n
            &&& name.len() > 0
            &&& arch.len() >= eoff + elen
            &&& arch.subrange(hoff, hoff + 12) == encrypt_stream(
                header_key_of(name, skey@),
                pad4(
                    header_bytes(
                        FileHeader {
                            checksum: u32_specs::wrapping_add(2u32, n as u32),
                            version: 2u8,
                            file_cnt: n as u32,
                        },
                    ),
                ),
            )
            &&& arch.subrange(eoff, eoff + elen) == encrypt_stream(
                entries_key_of(name, skey@),
                pad4(blob),
            )
            &&& (forall|i: int|
                0 <= i < n ==> {
                    let e = (#[trigger] es[i])@;
                    let content = content_of(files@[i].data@, files@[i].name@, exts);
                    let stored = stored_of(e, content);
                    &&& e.name == files@[i].name@
                    &&& e.original_size == files@[i].data@.len()
                    &&& e.raw_size == content.len()
                    &&& e.flags == flags_of(
                        should_compress(files@[i].name@, exts),
                        enc,
                        content.len() as int,
                    )
                    &&& entry_ok(e)
                    &&& e.key.len() == 16
                    &&& 0 < utf16_encode(e.name).len() <= 4096
                    &&& pstart + e.offset * 1024 + stored.len() <= arch.len()
                    &&& arch.subrange(
                        pstart + e.offset * 1024,
                        pstart + e.offset * 1024 + stored.len(),
                    ) == stored
                })
            &&& (forall|i: int|
                0 <= i < n ==> (#[trigger] es[i])@.offset == (if i == 0 {
                    0int
                } else {
                    es[i - 1]@.offset + (es[i - 1]@.raw_size + 1023) / 1024
                }))
        }),
        ({
            let bn = crate::common::spec_basename(output_fname@);
            let exts = compress_exts@.map_values(|s: String| s@);
            &&& (r == Result::<(Vec<u8>, Vec<FileEntry>), CodecError>::Err(CodecError::InvalidPath)
                <==> !(bn.len() > 0 && bn != seq!['.', '.']))
            &&& (r is Err ==> (r->Err_0 == CodecError::InvalidPath || r->Err_0
                == CodecError::EntryNameLength || r->Err_0 == CodecError::IoShort))
            &&& (r is Err && r->Err_0 == CodecError::EntryNameLength ==> (exists|i: int|
                0 <= i < files@.len() && !(0 < utf16_encode(
                    (#[trigger] files@[i]).name@,
                ).len() <= 4096)))
            &&& (r is Err && r->Err_0 == CodecError::IoShort ==> (!(forall|i: int|
                0 <= i < files@.len() ==> pack_file_ok(#[trigger] files@[i], exts))
                || !pack_fits(files@, bn, exts)))
            &&& (bn.len() > 0 && bn != seq!['.', '.'] && (forall|i: int|
                0 <= i < files@.len() ==> pack_file_ok(#[trigger] files@[i], exts)) && pack_fits(
                files@,
                bn,
                exts,
            ) ==> r is Ok)
        }),
{
    let name = match crate::common::get_final_file_name(output_fname) {
        Ok(s) => s,
        Err(e) => {
            return Err(e);
        },
    };
    let ghost exts = compress_exts@.map_values(|s: String| s@);
    let (entries, pieces, next_block) = match build_entries(files, skey, compress_exts, enc) {
        Ok(t) => t,
        Err(e) => {
            proof {
                reveal(pack_file_ok);
                assert(e == CodecError::EntryNameLength || e == CodecError::IoShort);
                if e == CodecError::IoShort {
                    reveal(pack_fits);
                    assert(!(forall|i: int|
                        0 <= i < files@.len() ==> pack_file_ok(
                            #[trigger] files@[i],
                            compress_exts@.map_values(|s: String| s@),
                        )) || !pack_fits(
                        files@,
                        crate::common::spec_basename(output_fname@),
                        compress_exts@.map_values(|s: String| s@),
                    ));
                } else {
                    assert(exists|i: int|
                        0 <= i < files@.len() && !(0 < utf16_encode(
                            (#[trigger] files@[i]).name@,
                        ).len() <= 4096));
                }
            }
            return Err(e);
        },
    };
    let n = entries.len();
    proof {
        reveal(total_blocks);
        assert(next_block == total_blocks(files@, exts));
        assert(forall|k: int|
            0 <= k < views_of(entries@).len() ==> (#[trigger] views_of(entries@)[k]).key.len()
                == 16 && views_of(entries@)[k].name == files@[k].name@) by {
            assert(forall|k: int|
                0 <= k < entries@.len() ==> views_of(entries@)[k] == (#[trigger] entries@[k])@);
        }
        lemma_entries_blob_len(views_of(entries@));
        lemma_entries_len_match(views_of(entries@), files@);
        assert(entries_blob(views_of(entries@)).len() == table_len(files@));
        reveal(assemble_fits);
        reveal(pack_fits);
        if pack_fits(files@, name@, exts) {
            assert(assemble_fits(name@, views_of(entries@), next_block as int));
        }
    }
    let arch = match assemble_image(&entries, &pieces, name.as_str(), skey, next_block) {
        Ok(a) => a,
        Err(e) => {
            proof {
                reveal(assemble_fits);
                reveal(pack_fits);
                assert(!assemble_fits(name@, views_of(entries@), next_block as int));
                assert(!pack_fits(files@, name@, exts));
            }
            return Err(e);
        },
    };
    Ok((arch, entries))
}

/// The serialization of the first `k` entries.
#[verifier::opaque]
pub open spec fn entries_blob_prefix(es: Seq<EntryV>, k: int) -> Seq<u8>
    decreases k,
{
    if k <= 0 {
        Seq::empty()
    } else {
        entries_blob_prefix(es, k - 1) + entry_bytes(es[k - 1])
    }
}

#[verifier::rlimit(100)]
proof fn lemma_entries_blob_prefix_step(es: Seq<EntryV>, k: int)
    requires
        0 <= k < es.len(),
    ensures
        entries_blob_prefix(es, k + 1) == entries_blob_prefix(es, k) + entry_bytes(es[k]),
{
    reveal(entries_blob_prefix);
}

/// The prefix serialization of all entries is the whole table blob.
proof fn lemma_entries_blob_prefix_full(es: Seq<EntryV>)
    ensures
        entries_blob_prefix(es, es.len() as int) == entries_blob(es),
    decreases es.len(),
{
    reveal(entries_blob_prefix);
    lemma_entries_blob_prefix_full_from(es, 0);
    assert(es.skip(0) =~= es);
    assert(entries_blob_prefix(es, 0) =~= Seq::<u8>::empty());
    assert(Seq::<u8>::empty() + entries_blob(es) =~= entries_blob(es));
}

#[verifier::rlimit(100)]
proof fn lemma_entries_blob_prefix_full_from(es: Seq<EntryV>, k: int)
    requires
        0 <= k <= es.len(),
    ensures
        entries_blob_prefix(es, es.len() as int) == entries_blob_prefix(es, k) + entries_blob(
            es.skip(k),
        ),
    decreases es.len() - k,
{
    reveal(entries_blob_prefix);
    reveal(entries_blob);
    if k == es.len() {
        assert(es.skip(k) =~= Seq::<EntryV>::empty());
        assert(entries_blob_prefix(es, k) + entries_blob(es.skip(k)) =~= entries_blob_prefix(
            es,
            k,
        ));
    } else {
        lemma_entries_blob_prefix_full_from(es, k + 1);
        assert(es.skip(k)[0] == es[k]);
        assert(es.skip(k).skip(1) =~= es.skip(k + 1));
        assert(entries_blob_prefix(es, k) + (entry_bytes(es[k]) + entries_blob(es.skip(k + 1)))
            =~= entries_blob_prefix(es, k + 1) + entries_blob(es.skip(k + 1)));
    }
}

/// Header round trip: the 9 header bytes, encrypted under any key and
/// decrypted under the same key, parse back to the same header.  With the
/// packer's header region contract this ties the write path to the read
/// path at the header layer.
pub proof fn lemma_header_roundtrip(key: Seq<u8>, h: FileHeader)
    ensures
        crate::common::parsed_header(
            crate::encryption::decrypt_stream(
                key,
                crate::encryption::encrypt_stream(key, pad4(header_bytes(h))),
            ),
        ) == h,
{
    crate::encryption::lemma_cipher_duality(key, header_bytes(h));
    let hb = header_bytes(h);
    let q = pad4(hb);
    let dec = crate::encryption::decrypt_stream(
        key,
        crate::encryption::encrypt_stream(key, q),
    );
    assert(dec == q);
    assert(q.subrange(0, 9) =~= hb);
    crate::encryption::lemma_le_word_bytes(h.checksum);
    crate::encryption::lemma_le_word_bytes(h.file_cnt);
    assert(crate::keystream::spec_le_word(q, 0) == h.checksum) by {
        assert(q[0] == word_bytes(h.checksum)[0] && q[1] == word_bytes(h.checksum)[1] && q[2]
            == word_bytes(h.checksum)[2] && q[3] == word_bytes(h.checksum)[3]);
    }
    assert(q[4] == h.version);
    assert(crate::keystream::spec_le_word(q, 5) == h.file_cnt) by {
        assert(q[5] == word_bytes(h.file_cnt)[0] && q[6] == word_bytes(h.file_cnt)[1] && q[7]
            == word_bytes(h.file_cnt)[2] && q[8] == word_bytes(h.file_cnt)[3]);
    }
}

} // verus!
