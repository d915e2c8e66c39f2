//! The container's data model: header and entry records, their on-disk
//! layout, checksum laws, and the decrypting readers for both.

use vstd::prelude::*;

verus! {

use crate::encryption::Snow2Decoder;
use crate::encryption::decrypt_stream;
use crate::encryption::gen_entries_key;
use crate::encryption::gen_entries_offset;
use crate::encryption::gen_header_key;
use crate::encryption::gen_header_offset;
use crate::encryption::key_input;
use crate::encryption::base_units;
use crate::encryption::spec_entries_key_byte;
use crate::encryption::spec_entries_offset;
use crate::encryption::spec_header_key_byte;
use crate::encryption::spec_header_offset;
use crate::encryption::word_bytes;
use crate::errors::CodecError;
use crate::keystream::spec_le_word;
use crate::text::utf16_decode;
use crate::text::utf16_encode;
use crate::text::utf16_to_string;
use vstd::wrapping::u32_specs;

/// Bit 0: the payload is zlib-compressed.
pub const FLAG_COMPRESSED: u32 = 1;

/// Bit 1: the payload is encrypted in full with the per-entry file key.
pub const FLAG_ALL_ENCRYPTED: u32 = 2;

/// Bit 2: only the payload's first 1024 bytes are encrypted.
pub const FLAG_HEAD_ENCRYPTED: u32 = 4;

/// The archive header: 9 bytes on disk, always encrypted with the header
/// key.
#[derive(Debug, Clone, Copy, PartialEq, Eq, Structural)]
pub struct FileHeader {
    pub checksum: u32,
    pub version: u8,
    pub file_cnt: u32,
}

/// The header's little-endian serialization: checksum, version, file count.
pub open spec fn header_bytes(h: FileHeader) -> Seq<u8> {
    word_bytes(h.checksum) + seq![h.version] + word_bytes(h.file_cnt)
}

/// The header checksum law: `checksum = version + file_cnt` in wrapping
/// 32-bit arithmetic.
pub open spec fn header_ok(h: FileHeader) -> bool {
    h.checksum == u32_specs::wrapping_add(h.version as u32, h.file_cnt)
}

/// The header sanity gates: supported versions stay below 10 and archives
/// hold fewer than 50 000 entries.
pub open spec fn header_sane(h: FileHeader) -> bool {
    h.version < 10 && h.file_cnt < 50000
}

impl FileHeader {
    /// Reads the 9 header bytes from a decrypting reader.
    pub fn new(r: &mut Snow2Decoder) -> (res: Result<FileHeader, CodecError>)
        requires
            old(r).wf(),
            old(r).pos() + 16 <= usize::MAX,
        ensures
            final(r).wf(),
            final(r).key() == old(r).key(),
            final(r).src_data() == old(r).src_data(),
            final(r).origin_at() == old(r).origin_at(),
            res is Ok <==> old(r).can_serve(9),
            res is Ok ==> ({
                let p = old(r).plaintext();
                let q = old(r).pos() as int;
                let h = res->Ok_0;
                &&& h.checksum == spec_le_word(p, q)
                &&& h.version == p[q + 4]
                &&& h.file_cnt == spec_le_word(p, q + 5)
                &&& header_bytes(h) == p.subrange(q, q + 9)
                &&& final(r).pos() == old(r).pos() + 9
            }),
            res is Err ==> res->Err_0 == CodecError::IoShort,
    {
        let ghost p = old(r).plaintext();
        let ghost pos0: int = old(r).pos() as int;
        let b = match r.read_exact(9) {
            Ok(v) => v,
            Err(e) => {
                return Err(e);
            },
        };
        proof {
            assert(old(r).can_serve(9));
            assert(p.len() >= pos0 + 9);
            assert(p.subrange(pos0, pos0 + 9).len() == 9);
            assert(b@.len() == 9);
            assert forall|t: int| 0 <= t < 9 implies b@[t] == p[pos0 + t] by {
                assert(p.subrange(pos0, pos0 + 9)[t] == p[pos0 + t]);
            }
        }
        let checksum: u32 = b[0] as u32 + b[1] as u32 * 0x100 + b[2] as u32 * 0x10000 + b[3] as u32
            * 0x1000000;
        let version: u8 = b[4];
        let file_cnt: u32 = b[5] as u32 + b[6] as u32 * 0x100 + b[7] as u32 * 0x10000 + b[8]
            as u32 * 0x1000000;
        let h = FileHeader { checksum, version, file_cnt };
        proof {
            assert(b@ == p.subrange(pos0, pos0 + 9));
            assert(checksum == spec_le_word(p, pos0));
            assert(version == p[pos0 + 4]);
            assert(file_cnt == spec_le_word(p, pos0 + 5));
            crate::encryption::lemma_word_bytes_le(p, pos0);
            crate::encryption::lemma_word_bytes_le(p, pos0 + 5);
            assert(header_bytes(h) =~= p.subrange(pos0, pos0 + 9));
        }
        Ok(h)
    }
}

/// Checks the header checksum law.
pub fn validate_header(hdr: &FileHeader) -> (r: Result<(), CodecError>)
    ensures
        r is Ok <==> header_ok(*hdr),
        r is Err ==> r->Err_0 == CodecError::HeaderChecksum,
{
    let calculated = (hdr.version as u32).wrapping_add(hdr.file_cnt);
    if calculated != hdr.checksum {
        Err(CodecError::HeaderChecksum)
    } else {
        Ok(())
    }
}

/// Anything that reports how many decrypted bytes it has produced.
pub trait StreamPositionProvider {
    /// The logical position, as a mathematical value.
    spec fn spec_stream_position(&self) -> nat;

    /// The logical position: the number of decrypted bytes produced.
    fn current_stream_position(&self) -> (r: u64)
        ensures
            r as nat == self.spec_stream_position(),
    ;
}

impl<'a> StreamPositionProvider for Snow2Decoder<'a> {
    open spec fn spec_stream_position(&self) -> nat {
        self.pos()
    }

    fn current_stream_position(&self) -> (r: u64) {
        self.stream_position()
    }
}

/// One packed file's metadata record.
#[derive(Debug, Clone)]
pub struct FileEntry {
    /// The logical path inside the archive.
    pub name: String,
    pub checksum: u32,
    pub flags: u32,
    /// The payload position, in 1024-byte blocks from the payload region
    /// start.
    pub offset: u32,
    /// The decompressed size.
    pub original_size: u32,
    /// The stored (possibly compressed) size.
    pub raw_size: u32,
    /// 16 bytes of per-entry key material.
    pub key: Vec<u8>,
}

/// The mathematical value of an entry.
pub struct EntryV {
    pub name: Seq<char>,
    pub checksum: u32,
    pub flags: u32,
    pub offset: u32,
    pub original_size: u32,
    pub raw_size: u32,
    pub key: Seq<u8>,
}

impl View for FileEntry {
    type V = EntryV;

    open spec fn view(&self) -> EntryV {
        EntryV {
            name: self.name@,
            checksum: self.checksum,
            flags: self.flags,
            offset: self.offset,
            original_size: self.original_size,
            raw_size: self.raw_size,
            key: self.key@,
        }
    }
}

/// The integer sum of a byte sequence.
pub open spec fn byte_sum(s: Seq<u8>) -> int
    decreases s.len(),
{
    if s.len() == 0 {
        0
    } else {
        byte_sum(s.drop_last()) + s.last()
    }
}

pub proof fn lemma_byte_sum_bounds(s: Seq<u8>)
    ensures
        0 <= byte_sum(s) <= s.len() * 0xFF,
    decreases s.len(),
{
    if s.len() > 0 {
        lemma_byte_sum_bounds(s.drop_last());
    }
}

/// The entry checksum law: `checksum` equals the wrapping 32-bit sum of
/// `flags`, `offset`, `original_size`, `raw_size` and the 16 key bytes.
pub open spec fn entry_ok(e: EntryV) -> bool {
    e.checksum == ((e.flags + e.offset + e.original_size + e.raw_size + byte_sum(e.key))
        % 0x100000000) as u32
}

/// The structural invariant of an entry: a 16-byte key and a name whose
/// UTF-16 encoding fits the on-disk length field.
pub open spec fn entry_wf(e: EntryV) -> bool {
    &&& e.key.len() == 16
    &&& 0 < utf16_encode(e.name).len() <= 4096
}

/// Checks every entry's checksum law.
pub fn validate_entries(entries: &Vec<FileEntry>) -> (r: Result<(), CodecError>)
    ensures
        r is Ok <==> (forall|i: int| 0 <= i < entries@.len() ==> entry_ok(#[trigger] entries@[i]@)),
        r is Err ==> r->Err_0 == CodecError::EntryChecksum && (exists|i: int|
            0 <= i < entries@.len() && !entry_ok(#[trigger] entries@[i]@) && (forall|j: int|
                0 <= j < i ==> entry_ok(#[trigger] entries@[j]@))),
{
    let n = entries.len();
    let mut i: usize = 0;
    while i < n
        invariant
            n == entries@.len(),
            i <= n,
            forall|j: int| 0 <= j < i ==> entry_ok(#[trigger] entries@[j]@),
        decreases n - i,
    {
        let ent = &entries[i];
        let key_sum = sum_bytes_wrapping_pub(&ent.key);
        let calculated = ent.flags.wrapping_add(ent.offset).wrapping_add(
            ent.original_size,
        ).wrapping_add(ent.raw_size).wrapping_add(key_sum);
        proof {
            lemma_byte_sum_bounds(ent.key@);
            lemma_wrapping_sum_chain_pub(
                ent.flags,
                ent.offset,
                ent.original_size,
                ent.raw_size,
                byte_sum(ent.key@),
            );
        }
        if calculated != ent.checksum {
            proof {
                assert(!entry_ok(entries@[i as int]@));
            }
            return Err(CodecError::EntryChecksum);
        }
        i = i + 1;
    }
    Ok(())
}

/// The wrapping 32-bit sum of a byte vector.
#[verifier::rlimit(60)]
pub fn sum_bytes_wrapping_pub(key: &Vec<u8>) -> (r: u32)
    ensures
        r == (byte_sum(key@) % 0x100000000) as u32,
{
    let n = key.len();
    let mut s: u32 = 0;
    let mut i: usize = 0;
    while i < n
        invariant
            n == key@.len(),
            i <= n,
            s == (byte_sum(key@.take(i as int)) % 0x100000000) as u32,
        decreases n - i,
    {
        proof {
            assert(key@.take(i + 1).drop_last() =~= key@.take(i as int));
            assert(key@.take(i + 1).last() == key@[i as int]);
            vstd::arithmetic::div_mod::lemma_add_mod_noop(
                byte_sum(key@.take(i as int)),
                key@[i as int] as int,
                0x100000000,
            );
            vstd::arithmetic::div_mod::lemma_mod_bound(
                byte_sum(key@.take(i as int)),
                0x100000000,
            );
        }
        s = s.wrapping_add(key[i] as u32);
        i = i + 1;
    }
    proof {
        assert(key@.take(n as int) =~= key@);
    }
    s
}

/// One step of a wrapping addition chain: adding `y` to a reduced sum
/// equals reducing the wide sum.
proof fn lemma_wrap_step(x: int, y: u32)
    requires
        x >= 0,
    ensures
        u32_specs::wrapping_add(((x % 0x100000000) as u32), y) == ((x + y) % 0x100000000) as u32,
{
    let m = 0x100000000int;
    vstd::arithmetic::div_mod::lemma_add_mod_noop(x, y as int, m);
    vstd::arithmetic::div_mod::lemma_mod_bound(x, m);
    assert((y as int) % m == y);
}

/// Folding one more term into a chain of wrapping additions equals the
/// single wide sum reduced once.
pub proof fn lemma_wrapping_sum_chain_pub(a: u32, b: u32, c: u32, d: u32, ks: int)
    requires
        ks >= 0,
    ensures
        u32_specs::wrapping_add(
            u32_specs::wrapping_add(
                u32_specs::wrapping_add(u32_specs::wrapping_add(a, b), c),
                d,
            ),
            ((ks % 0x100000000) as u32),
        ) == ((a + b + c + d + ks) % 0x100000000) as u32,
{
    let m = 0x100000000int;
    assert((a as int) % m == a);
    lemma_wrap_step(a as int, b);
    lemma_wrap_step(a + b, c);
    lemma_wrap_step(a + b + c, d);
    lemma_wrap_step(a + b + c + d, ((ks % m) as u32));
    vstd::arithmetic::div_mod::lemma_add_mod_noop(a + b + c + d, ks, m);
    vstd::arithmetic::div_mod::lemma_mod_bound(ks, m);
    assert((ks % m) % m == ks % m) by {
        vstd::arithmetic::div_mod::lemma_mod_bound(ks, m);
    }
    assert(a + b + c + d + ks % m >= 0);
    vstd::arithmetic::div_mod::lemma_add_mod_noop(a + b + c + d, ks % m, m);
}

// ---------------------------------------------------------------------------
// Parsing entries from a decrypted stream.
// ---------------------------------------------------------------------------

/// Byte pairs read as little-endian UTF-16 code units.
pub open spec fn u16s_of_bytes(b: Seq<u8>) -> Seq<u16> {
    Seq::new(b.len() / 2, |i: int| (b[2 * i] + b[2 * i + 1] * 0x100) as u16)
}

/// The outcome of parsing one entry at a position of a decrypted stream.
pub enum EParse {
    /// The entry's value and the position just after it.
    Parsed(EntryV, int),
    /// The stored name length is zero or above 4096.
    BadLen,
    /// The stored name is not well-formed UTF-16.
    BadUtf16,
    /// The stream ends inside the entry.
    Short,
}

/// Parses one serialized entry at `pos`: a 4-byte name length in code
/// units, the UTF-16LE name, five 32-bit fields, and 16 key bytes.
pub open spec fn parse_entry_at(plain: Seq<u8>, pos: int) -> EParse {
    if pos + 4 > plain.len() {
        EParse::Short
    } else {
        let ln = spec_le_word(plain, pos) as int;
        if ln == 0 || ln > 4096 {
            EParse::BadLen
        } else if pos + 4 + 2 * ln > plain.len() {
            EParse::Short
        } else {
            let units = u16s_of_bytes(plain.subrange(pos + 4, pos + 4 + 2 * ln));
            match utf16_decode(units) {
                Option::None => EParse::BadUtf16,
                Option::Some(nm) => if pos + 40 + 2 * ln > plain.len() {
                    EParse::Short
                } else {
                    EParse::Parsed(
                    EntryV {
                        name: nm,
                        checksum: spec_le_word(plain, pos + 4 + 2 * ln),
                        flags: spec_le_word(plain, pos + 8 + 2 * ln),
                        offset: spec_le_word(plain, pos + 12 + 2 * ln),
                        original_size: spec_le_word(plain, pos + 16 + 2 * ln),
                        raw_size: spec_le_word(plain, pos + 20 + 2 * ln),
                        key: plain.subrange(pos + 24 + 2 * ln, pos + 40 + 2 * ln),
                        },
                        pos + 40 + 2 * ln,
                    )
                },
            }
        }
    }
}

impl FileEntry {
    /// Reads one entry from a decrypting reader.
    pub fn new(r: &mut Snow2Decoder) -> (res: Result<FileEntry, CodecError>)
        requires
            old(r).wf(),
            old(r).pos() + 8400 <= usize::MAX,
        ensures
            final(r).wf(),
            final(r).key() == old(r).key(),
            final(r).src_data() == old(r).src_data(),
            final(r).origin_at() == old(r).origin_at(),
            res is Ok <==> parse_entry_at(old(r).plaintext(), old(r).pos() as int) is Parsed,
            res is Ok ==> ({
                let pe = parse_entry_at(old(r).plaintext(), old(r).pos() as int);
                &&& res->Ok_0@ == pe->Parsed_0
                &&& final(r).pos() == pe->Parsed_1
                &&& res->Ok_0.key@.len() == 16
                &&& res->Ok_0.name@.len() > 0
            }),
            parse_entry_at(old(r).plaintext(), old(r).pos() as int) is Short ==> res == Result::<
                FileEntry,
                CodecError,
            >::Err(CodecError::IoShort),
            parse_entry_at(old(r).plaintext(), old(r).pos() as int) is BadLen ==> res == Result::<
                FileEntry,
                CodecError,
            >::Err(CodecError::EntryNameLength) && final(r).pos() == old(r).pos() + 4,
            parse_entry_at(old(r).plaintext(), old(r).pos() as int) is BadUtf16 ==> res
                == Result::<FileEntry, CodecError>::Err(CodecError::Utf16Decode) && final(r).pos()
                == old(r).pos() + 4 + 2 * (spec_le_word(
                old(r).plaintext(),
                old(r).pos() as int,
            ) as int),
    {
        let ghost p = old(r).plaintext();
        let ghost pos0: int = old(r).pos() as int;
        proof {
            r.lemma_pos_bounds();
        }
        let lb = match r.read_exact(4) {
            Ok(v) => v,
            Err(_) => {
                proof {
                    assert(parse_entry_at(p, pos0) is Short);
                }
                return Err(CodecError::IoShort);
            },
        };
        proof {
            assert(p.subrange(pos0, pos0 + 4).len() == 4);
            assert forall|t: int| 0 <= t < 4 implies lb@[t] == p[pos0 + t] by {
                assert(p.subrange(pos0, pos0 + 4)[t] == p[pos0 + t]);
            }
        }
        let ln_u32: u32 = lb[0] as u32 + lb[1] as u32 * 0x100 + lb[2] as u32 * 0x10000 + lb[3]
            as u32 * 0x1000000;
        proof {
            assert(ln_u32 == spec_le_word(p, pos0));
        }
        if ln_u32 == 0 || ln_u32 > 4096 {
            return Err(CodecError::EntryNameLength);
        }
        let ln = ln_u32 as usize;
        let nb = match r.read_exact(2 * ln) {
            Ok(v) => v,
            Err(_) => {
                return Err(CodecError::IoShort);
            },
        };
        let ghost npos = pos0 + 4;
        proof {
            assert(p.subrange(npos, npos + 2 * ln).len() == 2 * ln);
            assert forall|t: int| 0 <= t < 2 * ln implies nb@[t] == p[npos + t] by {
                assert(p.subrange(npos, npos + 2 * ln)[t] == p[npos + t]);
            }
        }
        let mut units: Vec<u16> = Vec::new();
        let mut i: usize = 0;
        while i < ln
            invariant
                i <= ln,
                ln <= 4096,
                nb@.len() == 2 * ln,
                units@.len() == i,
                forall|j: int| 0 <= j < i ==> units@[j] == u16s_of_bytes(nb@)[j],
            decreases ln - i,
        {
            let u: u16 = nb[2 * i] as u16 + nb[2 * i + 1] as u16 * 0x100;
            units.push(u);
            i = i + 1;
        }
        proof {
            assert(units@ =~= u16s_of_bytes(nb@));
            assert(nb@ =~= p.subrange(npos, npos + 2 * ln));
        }
        let name = match utf16_to_string(&units) {
            Ok(s) => s,
            Err(_) => {
                return Err(CodecError::Utf16Decode);
            },
        };
        let fb = match r.read_exact(20) {
            Ok(v) => v,
            Err(_) => {
                return Err(CodecError::IoShort);
            },
        };
        let ghost fpos = pos0 + 4 + 2 * ln;
        proof {
            assert(p.subrange(fpos, fpos + 20).len() == 20);
            assert forall|t: int| 0 <= t < 20 implies fb@[t] == p[fpos + t] by {
                assert(p.subrange(fpos, fpos + 20)[t] == p[fpos + t]);
            }
        }
        let checksum: u32 = fb[0] as u32 + fb[1] as u32 * 0x100 + fb[2] as u32 * 0x10000 + fb[3]
            as u32 * 0x1000000;
        let flags: u32 = fb[4] as u32 + fb[5] as u32 * 0x100 + fb[6] as u32 * 0x10000 + fb[7]
            as u32 * 0x1000000;
        let offset: u32 = fb[8] as u32 + fb[9] as u32 * 0x100 + fb[10] as u32 * 0x10000 + fb[11]
            as u32 * 0x1000000;
        let original_size: u32 = fb[12] as u32 + fb[13] as u32 * 0x100 + fb[14] as u32 * 0x10000
            + fb[15] as u32 * 0x1000000;
        let raw_size: u32 = fb[16] as u32 + fb[17] as u32 * 0x100 + fb[18] as u32 * 0x10000 + fb[19]
            as u32 * 0x1000000;
        let key = match r.read_exact(16) {
            Ok(v) => v,
            Err(_) => {
                return Err(CodecError::IoShort);
            },
        };
        let e = FileEntry { name, checksum, flags, offset, original_size, raw_size, key };
        proof {
            let pe = parse_entry_at(p, pos0);
            assert(e.key@ =~= p.subrange(pos0 + 24 + 2 * ln, pos0 + 40 + 2 * ln));
            assert(checksum == spec_le_word(p, pos0 + 4 + 2 * ln));
            assert(flags == spec_le_word(p, pos0 + 8 + 2 * ln));
            assert(offset == spec_le_word(p, pos0 + 12 + 2 * ln));
            assert(original_size == spec_le_word(p, pos0 + 16 + 2 * ln));
            assert(raw_size == spec_le_word(p, pos0 + 20 + 2 * ln));
            assert(pe is Parsed);
            assert(e@ == pe->Parsed_0);
            assert(e.name@.len() > 0) by {
                let units_s = u16s_of_bytes(p.subrange(pos0 + 4, pos0 + 4 + 2 * ln));
                assert(units_s.len() > 0);
                assert(utf16_decode(units_s) is Some);
            }
        }
        Ok(e)
    }
}


// ---------------------------------------------------------------------------
// Whole-archive readers.
// ---------------------------------------------------------------------------

/// The 128-byte header key as a sequence.
pub open spec fn header_key_of(name: Seq<char>, skey: Seq<char>) -> Seq<u8> {
    Seq::new(128, |i: int| spec_header_key_byte(key_input(name, skey), i))
}

/// The 128-byte entries key as a sequence.
pub open spec fn entries_key_of(name: Seq<char>, skey: Seq<char>) -> Seq<u8> {
    Seq::new(128, |i: int| spec_entries_key_byte(key_input(name, skey), i))
}

/// The decrypted stream that begins at `off` under the header key.
pub open spec fn header_plain(name: Seq<char>, skey: Seq<char>, data: Seq<u8>, off: int) -> Seq<
    u8,
> {
    decrypt_stream(header_key_of(name, skey), data.skip(off))
}

/// The decrypted stream that begins at `off` under the entries key.
pub open spec fn table_plain(name: Seq<char>, skey: Seq<char>, data: Seq<u8>, off: int) -> Seq<
    u8,
> {
    decrypt_stream(entries_key_of(name, skey), data.skip(off))
}

/// The header parsed from the first 9 bytes of a decrypted stream.
pub open spec fn parsed_header(hp: Seq<u8>) -> FileHeader {
    FileHeader { checksum: spec_le_word(hp, 0), version: hp[4], file_cnt: spec_le_word(hp, 5) }
}

/// Decrypts and parses the 9-byte header at the given absolute offset.
pub fn read_header(fname_for_key: &str, skey: &str, data: &[u8], header_offset: u64) -> (r:
    Result<FileHeader, CodecError>)
    requires
        fname_for_key@.len() + skey@.len() > 0,
        data@.len() + 16 <= usize::MAX,
    ensures
        header_offset > data@.len() ==> r == Result::<FileHeader, CodecError>::Err(
            CodecError::IoSeek,
        ),
        header_offset <= data@.len() ==> ({
            let hp = header_plain(fname_for_key@, skey@, data@, header_offset as int);
            &&& (r is Ok <==> hp.len() >= 9)
            &&& (r is Ok ==> r->Ok_0 == parsed_header(hp))
            &&& (r is Err ==> r->Err_0 == CodecError::IoShort)
        }),
{
    if header_offset > data.len() as u64 {
        return Err(CodecError::IoSeek);
    }
    let key = gen_header_key(fname_for_key, skey);
    proof {
        assert(key@ =~= header_key_of(fname_for_key@, skey@));
    }
    let mut dec = Snow2Decoder::new(&key, data, header_offset as usize);
    let ghost hp = header_plain(fname_for_key@, skey@, data@, header_offset as int);
    proof {
        assert(dec.plaintext() == hp);
        crate::encryption::lemma_decrypt_len(dec.key(), dec.cipher_region());
    }
    match FileHeader::new(&mut dec) {
        Ok(h) => {
            proof {
                assert(hp.subrange(0, 9)[4] == hp[4]);
                assert(h.checksum == spec_le_word(hp, 0));
            }
            Ok(h)
        },
        Err(e) => Err(e),
    }
}

/// Tries one candidate header offset: parses, sanity-gates and
/// checksum-validates the header there.  `Ok(None)` means "try the next
/// candidate"; a successful probe also reports the raw source position
/// just after the header's three encrypted words.
pub fn try_read_and_validate_header(
    data: &[u8],
    fname_for_key: &str,
    skey: &str,
    candidate_offset: u64,
) -> (r: Result<Option<(FileHeader, u64)>, CodecError>)
    requires
        fname_for_key@.len() + skey@.len() > 0,
        data@.len() + 16 <= usize::MAX,
    ensures
        candidate_offset > data@.len() ==> r == Result::<
            Option<(FileHeader, u64)>,
            CodecError,
        >::Err(CodecError::IoSeek),
        candidate_offset <= data@.len() ==> ({
            let hp = header_plain(fname_for_key@, skey@, data@, candidate_offset as int);
            let h = parsed_header(hp);
            &&& r is Ok
            &&& (r->Ok_0 is Some <==> hp.len() >= 9 && header_sane(h) && header_ok(h))
            &&& (r->Ok_0 is Some ==> (r->Ok_0->Some_0).0 == h && (r->Ok_0->Some_0).1
                == candidate_offset + 12)
        }),
{
    if candidate_offset > data.len() as u64 {
        return Err(CodecError::IoSeek);
    }
    let header = match read_header(fname_for_key, skey, data, candidate_offset) {
        Ok(h) => h,
        Err(_) => {
            return Ok(None);
        },
    };
    if header.version >= 10 || header.file_cnt >= 50000 {
        return Ok(None);
    }
    if validate_header(&header).is_err() {
        return Ok(None);
    }
    Ok(Some((header, candidate_offset + 12)))
}

/// Parses `cnt` consecutive entries from a decrypted stream.
pub open spec fn parse_entries(plain: Seq<u8>, pos: int, cnt: nat) -> Option<(Seq<EntryV>, int)>
    decreases cnt,
{
    if cnt == 0 {
        Option::Some((Seq::empty(), pos))
    } else {
        match parse_entry_at(plain, pos) {
            EParse::Parsed(e, p2) => match parse_entries(plain, p2, (cnt - 1) as nat) {
                Option::Some(pair) => Option::Some((seq![e] + pair.0, pair.1)),
                Option::None => Option::None,
            },
            _ => Option::None,
        }
    }
}

/// The entry values of a vector of parsed entries.
pub open spec fn views_of(es: Seq<FileEntry>) -> Seq<EntryV> {
    es.map_values(|e: FileEntry| e@)
}

/// Reads `cnt` entries through a decoder positioned at the table start.
fn parse_table(dec: &mut Snow2Decoder, cnt: u32) -> (r: Result<Vec<FileEntry>, CodecError>)
    requires
        old(dec).wf(),
        old(dec).pos() == 0,
        old(dec).src_data().len() + 8500 <= usize::MAX,
    ensures
        final(dec).wf(),
        final(dec).key() == old(dec).key(),
        final(dec).src_data() == old(dec).src_data(),
        final(dec).origin_at() == old(dec).origin_at(),
        r is Ok <==> parse_entries(old(dec).plaintext(), 0, cnt as nat) is Some,
        r is Ok ==> ({
            let pr = parse_entries(old(dec).plaintext(), 0, cnt as nat)->Some_0;
            &&& views_of(r->Ok_0@) == pr.0
            &&& r->Ok_0@.len() == cnt
            &&& final(dec).pos() == pr.1
            &&& (forall|i: int|
                0 <= i < cnt ==> (#[trigger] r->Ok_0@[i]).key@.len() == 16 && r->Ok_0@[i].name@.len()
                    > 0)
        }),
{
    let ghost plain = old(dec).plaintext();
    let mut entries: Vec<FileEntry> = Vec::new();
    let mut i: u32 = 0;
    proof {
        assert(views_of(entries@) =~= Seq::<EntryV>::empty());
    }
    while i < cnt
        invariant
            i <= cnt,
            dec.wf(),
            dec.key() == old(dec).key(),
            dec.src_data() == old(dec).src_data(),
            dec.origin_at() == old(dec).origin_at(),
            dec.src_data().len() + 8500 <= usize::MAX,
            plain == dec.plaintext(),
            entries@.len() == i,
            forall|j: int|
                0 <= j < i ==> (#[trigger] entries@[j]).key@.len() == 16 && entries@[j].name@.len()
                    > 0,
            parse_entries(plain, 0, cnt as nat) is Some <==> parse_entries(
                plain,
                dec.pos() as int,
                (cnt - i) as nat,
            ) is Some,
            parse_entries(plain, 0, cnt as nat) is Some ==> parse_entries(plain, 0, cnt as nat)
                == Option::Some(
                (
                    views_of(entries@) + parse_entries(
                        plain,
                        dec.pos() as int,
                        (cnt - i) as nat,
                    )->Some_0.0,
                    parse_entries(plain, dec.pos() as int, (cnt - i) as nat)->Some_0.1,
                ),
            ),
        decreases cnt - i,
    {
        proof {
            dec.lemma_pos_bounds();
            crate::encryption::lemma_decrypt_len(dec.key(), dec.cipher_region());
        }
        let ghost pre = parse_entries(plain, dec.pos() as int, (cnt - i) as nat);
        let ghost built = views_of(entries@);
        let e = match FileEntry::new(dec) {
            Ok(e) => e,
            Err(err) => {
                proof {
                    assert(parse_entries(plain, 0, cnt as nat) is None);
                }
                return Err(err);
            },
        };
        entries.push(e);
        proof {
            let pe = parse_entry_at(plain, old(dec).plaintext().len() as int - plain.len() + dec.pos() as int);
            assert(views_of(entries@) =~= built.push(e@));
            if parse_entries(plain, 0, cnt as nat) is Some {
                let rest = parse_entries(plain, dec.pos() as int, (cnt - i - 1) as nat);
                assert(built.push(e@) + rest->Some_0.0 =~= built + (seq![e@] + rest->Some_0.0));
            }
        }
        i = i + 1;
    }
    proof {
        if parse_entries(plain, 0, cnt as nat) is Some {
            assert(views_of(entries@) + Seq::<EntryV>::empty() =~= views_of(entries@));
        }
    }
    Ok(entries)
}

/// Appends a value to a candidate list unless it is already present.
pub open spec fn push_unique(s: Seq<int>, x: int) -> Seq<int> {
    if s.contains(x) {
        s
    } else {
        s.push(x)
    }
}

/// The candidate entry-table offsets for a header offset `hoff` and an
/// entries offset `eoff`: the formula offset `hoff + eoff` first, then, in
/// heuristic mode, the documented fallbacks.
pub open spec fn entry_offset_candidates(hoff: int, eoff: int, use_formula_only: bool) -> Seq<
    int,
> {
    let f = hoff + eoff;
    if use_formula_only {
        seq![f]
    } else {
        let s1 = push_unique(push_unique(seq![f], eoff), hoff + 9);
        let s2 = if f > 8 {
            push_unique(push_unique(s1, f - 8), f - 4)
        } else {
            s1
        };
        push_unique(push_unique(s2, f + 4), f + 8)
    }
}

/// The integer values of a vector of offsets.
pub open spec fn as_ints(s: Seq<u64>) -> Seq<int> {
    s.map_values(|x: u64| x as int)
}

/// Pushes `x` unless present, mirroring [`push_unique`].
fn push_unique_exec(v: &mut Vec<u64>, x: u64)
    ensures
        as_ints(final(v)@) == push_unique(as_ints(old(v)@), x as int),
{
    let n = v.len();
    let mut i: usize = 0;
    while i < n
        invariant
            n == v@.len(),
            i <= n,
            forall|j: int| 0 <= j < i ==> v@[j] != x,
        decreases n - i,
    {
        if v[i] == x {
            proof {
                assert(as_ints(v@)[i as int] == x as int);
                assert(as_ints(v@).contains(x as int));
                assert(as_ints(v@) =~= push_unique(as_ints(v@), x as int));
            }
            return ;
        }
        i = i + 1;
    }
    proof {
        assert(forall|j: int| 0 <= j < v@.len() ==> as_ints(v@)[j] != x as int);
        assert(!as_ints(v@).contains(x as int));
    }
    let ghost before = v@;
    v.push(x);
    proof {
        assert(as_ints(v@) =~= as_ints(before).push(x as int));
    }
}

/// A whole-table parse attempt under a given key: `None` when the offset
/// is out of range or any entry fails to parse.
pub open spec fn table_at_key(key: Seq<u8>, data: Seq<u8>, off: int, cnt: nat) -> Option<
    (Seq<EntryV>, int),
> {
    if off > data.len() {
        Option::None
    } else {
        parse_entries(decrypt_stream(key, data.skip(off)), 0, cnt)
    }
}

/// A whole-table parse attempt at an absolute offset: `None` when the
/// offset is out of range or any entry fails to parse.
pub open spec fn table_at(
    name: Seq<char>,
    skey: Seq<char>,
    data: Seq<u8>,
    off: int,
    cnt: nat,
) -> Option<(Seq<EntryV>, int)> {
    table_at_key(entries_key_of(name, skey), data, off, cnt)
}

/// Attempts one candidate table offset under an already-derived key.
fn try_table_at(key: &Vec<u8>, data: &[u8], off: u64, cnt: u32) -> (r: Option<
    (Vec<FileEntry>, u64),
>)
    requires
        key@.len() == 128,
        data@.len() + 8500 <= usize::MAX,
    ensures
        r is Some <==> table_at_key(key@, data@, off as int, cnt as nat) is Some,
        r is Some ==> ({
            let t = table_at_key(key@, data@, off as int, cnt as nat)->Some_0;
            &&& views_of((r->Some_0).0@) == t.0
            &&& (r->Some_0).0@.len() == cnt
            &&& (r->Some_0).1 == off + 4 * ((t.1 + 3) / 4)
            &&& (r->Some_0).1 <= data@.len()
            &&& (forall|k: int|
                0 <= k < cnt ==> (#[trigger] (r->Some_0).0@[k]).key@.len() == 16 && (
                r->Some_0).0@[k].name@.len() > 0)
        }),
{
    if off > data.len() as u64 {
        return None;
    }
    let mut dec = Snow2Decoder::new(key, data, off as usize);
    match parse_table(&mut dec, cnt) {
        Ok(es) => {
            let end = dec.source_position();
            Some((es, end as u64))
        },
        Err(_) => None,
    }
}

/// Tries a list of candidate table offsets in order under one key and
/// returns the first table that parses, with the raw position just after
/// it.
fn search_tables(key: &Vec<u8>, data: &[u8], cands: &Vec<u64>, cnt: u32) -> (r: Result<
    (Vec<FileEntry>, u64),
    CodecError,
>)
    requires
        key@.len() == 128,
        data@.len() + 8500 <= usize::MAX,
    ensures
        r is Err ==> r->Err_0 == CodecError::ParametersExhausted && (forall|i: int|
            0 <= i < cands@.len() ==> table_at_key(
                key@,
                data@,
                #[trigger] as_ints(cands@)[i],
                cnt as nat,
            ) is None),
        r is Ok ==> (exists|i: int|
            {
                let t = table_at_key(key@, data@, #[trigger] as_ints(cands@)[i], cnt as nat);
                &&& 0 <= i < cands@.len()
                &&& t is Some
                &&& (forall|j: int|
                    0 <= j < i ==> table_at_key(
                        key@,
                        data@,
                        #[trigger] as_ints(cands@)[j],
                        cnt as nat,
                    ) is None)
                &&& views_of((r->Ok_0).0@) == t->Some_0.0
                &&& (r->Ok_0).1 == as_ints(cands@)[i] + 4 * ((t->Some_0.1 + 3) / 4)
                &&& (r->Ok_0).1 <= data@.len()
            }),
        r is Ok ==> (r->Ok_0).0@.len() == cnt && (forall|k: int|
            0 <= k < cnt ==> (#[trigger] (r->Ok_0).0@[k]).key@.len() == 16 && (
            r->Ok_0).0@[k].name@.len() > 0),
{
    let ncand = cands.len();
    let mut ci: usize = 0;
    while ci < ncand
        invariant
            ncand == cands@.len(),
            ci <= ncand,
            key@.len() == 128,
            data@.len() + 8500 <= usize::MAX,
            forall|j: int|
                0 <= j < ci ==> table_at_key(
                    key@,
                    data@,
                    #[trigger] as_ints(cands@)[j],
                    cnt as nat,
                ) is None,
        decreases ncand - ci,
    {
        let off = cands[ci];
        proof {
            assert(as_ints(cands@)[ci as int] == off as int);
        }
        match try_table_at(key, data, off, cnt) {
            Some(pair) => {
                return Ok(pair);
            },
            None => {},
        }
        ci = ci + 1;
    }
    Err(CodecError::ParametersExhausted)
}

/// The table search succeeds with `views` and raw end position `end`:
/// some candidate offset parses while every earlier candidate fails.
pub open spec fn table_search_ok(
    name: Seq<char>,
    skey: Seq<char>,
    data: Seq<u8>,
    cnt: nat,
    use_formula_only: bool,
    views: Seq<EntryV>,
    end: int,
) -> bool {
    let cands = entry_offset_candidates(
        spec_header_offset(base_units(name)),
        spec_entries_offset(base_units(name)),
        use_formula_only,
    );
    exists|i: int|
        {
            let t = table_at(name, skey, data, #[trigger] cands[i], cnt);
            &&& 0 <= i < cands.len()
            &&& t is Some
            &&& (forall|j: int|
                0 <= j < i ==> table_at(name, skey, data, #[trigger] cands[j], cnt) is None)
            &&& views == t->Some_0.0
            &&& end == cands[i] + 4 * ((t->Some_0.1 + 3) / 4)
        }
}

/// The table search fails: no candidate offset parses.
pub open spec fn table_search_none(
    name: Seq<char>,
    skey: Seq<char>,
    data: Seq<u8>,
    cnt: nat,
    use_formula_only: bool,
) -> bool {
    let cands = entry_offset_candidates(
        spec_header_offset(base_units(name)),
        spec_entries_offset(base_units(name)),
        use_formula_only,
    );
    forall|i: int| 0 <= i < cands.len() ==> table_at(name, skey, data, #[trigger] cands[i], cnt) is None
}

/// Reads the whole entry table, trying the formula offset first and, in
/// heuristic mode, the documented fallback offsets in order.  On success
/// also returns the absolute raw position just after the encrypted table,
/// from which the payload region start is derived.
#[verifier::rlimit(100)]
pub fn read_entries(
    fname_for_key: &str,
    header: &FileHeader,
    skey: &str,
    data: &[u8],
    use_formula_only: bool,
) -> (r: Result<(Vec<FileEntry>, u64), CodecError>)
    requires
        fname_for_key@.len() + skey@.len() > 0,
        data@.len() + 8500 <= usize::MAX,
    ensures
        r is Err ==> r->Err_0 == CodecError::ParametersExhausted && table_search_none(
            fname_for_key@,
            skey@,
            data@,
            header.file_cnt as nat,
            use_formula_only,
        ),
        r is Ok ==> table_search_ok(
            fname_for_key@,
            skey@,
            data@,
            header.file_cnt as nat,
            use_formula_only,
            views_of((r->Ok_0).0@),
            (r->Ok_0).1 as int,
        ) && (r->Ok_0).1 <= data@.len(),
        r is Ok ==> (r->Ok_0).0@.len() == header.file_cnt && (forall|k: int|
            0 <= k < (r->Ok_0).0@.len() ==> (#[trigger] (r->Ok_0).0@[k]).key@.len() == 16 && (
            r->Ok_0).0@[k].name@.len() > 0),
{
    let entries_key = gen_entries_key(fname_for_key, skey);
    proof {
        assert(entries_key@ =~= entries_key_of(fname_for_key@, skey@));
    }
    let hoff = gen_header_offset(fname_for_key);
    let eoff = gen_entries_offset(fname_for_key);
    let formula = (hoff + eoff) as u64;
    let mut cands: Vec<u64> = Vec::new();
    cands.push(formula);
    proof {
        assert(as_ints(cands@) =~= seq![formula as int]);
    }
    if !use_formula_only {
        push_unique_exec(&mut cands, eoff as u64);
        push_unique_exec(&mut cands, (hoff + 9) as u64);
        if formula > 8 {
            push_unique_exec(&mut cands, formula - 8);
            push_unique_exec(&mut cands, formula - 4);
        }
        push_unique_exec(&mut cands, formula + 4);
        push_unique_exec(&mut cands, formula + 8);
    }
    let ghost spec_cands = entry_offset_candidates(
        spec_header_offset(base_units(fname_for_key@)),
        spec_entries_offset(base_units(fname_for_key@)),
        use_formula_only,
    );
    proof {
        assert(as_ints(cands@) == spec_cands);
    }
    let r = search_tables(&entries_key, data, &cands, header.file_cnt);
    proof {
        assert forall|i: int| 0 <= i < spec_cands.len() implies table_at(
            fname_for_key@,
            skey@,
            data@,
            #[trigger] spec_cands[i],
            header.file_cnt as nat,
        ) == table_at_key(entries_key@, data@, as_ints(cands@)[i], header.file_cnt as nat) by {
            assert(spec_cands[i] == as_ints(cands@)[i]);
        }
    }
    r
}

// ---------------------------------------------------------------------------
// Path handling.
// ---------------------------------------------------------------------------

/// Whether a character separates path components.
pub open spec fn is_sep(c: char) -> bool {
    c == '/' || c == '\\'
}

/// Where the final path component begins: just after the last separator,
/// or at the start when there is none.
pub open spec fn basename_start(s: Seq<char>) -> int
    decreases s.len(),
{
    if s.len() == 0 {
        0
    } else if is_sep(s.last()) {
        s.len() as int
    } else {
        basename_start(s.drop_last())
    }
}

/// The final path component.
pub open spec fn spec_basename(s: Seq<char>) -> Seq<char> {
    s.skip(basename_start(s))
}

/// Extracts the final file-name component of a path, the string all keys
/// and offsets are derived from.  Fails when the path ends in a separator,
/// is empty, or names the parent directory.
pub fn get_final_file_name(fname: &str) -> (r: Result<String, CodecError>)
    ensures
        r is Ok <==> (spec_basename(fname@).len() > 0 && spec_basename(fname@) != seq!['.', '.']),
        r is Ok ==> r->Ok_0@ == spec_basename(fname@),
        r is Err ==> r->Err_0 == CodecError::InvalidPath,
{
    let n = fname.unicode_len();
    let mut cut: usize = n;
    let mut found = false;
    proof {
        assert(fname@.take(n as int) =~= fname@);
    }
    while !found && cut > 0
        invariant
            cut <= n,
            n == fname@.len(),
            found ==> basename_start(fname@) == cut,
            !found ==> basename_start(fname@) == basename_start(fname@.take(cut as int)),
        decreases cut + (if found {
            0int
        } else {
            1int
        }),
    {
        let c = fname.get_char(cut - 1);
        proof {
            assert(fname@.take(cut as int).last() == fname@[cut - 1]);
        }
        if c == '/' || c == '\\' {
            found = true;
            proof {
                assert(basename_start(fname@.take(cut as int)) == cut);
            }
        } else {
            proof {
                assert(fname@.take(cut as int).drop_last() =~= fname@.take(cut - 1));
            }
            cut = cut - 1;
        }
    }
    proof {
        if !found {
            assert(cut == 0);
            assert(fname@.take(0) =~= Seq::<char>::empty());
            assert(basename_start(fname@) == 0);
        }
        assert(basename_start(fname@) == cut);
    }
    if cut == n {
        return Err(CodecError::InvalidPath);
    }
    let base = fname.substring_char(cut, n);
    proof {
        assert(base@ =~= spec_basename(fname@));
    }
    if base.unicode_len() == 2 {
        let c0 = base.get_char(0);
        let c1 = base.get_char(1);
        if c0 == '.' && c1 == '.' {
            proof {
                assert(spec_basename(fname@) =~= seq!['.', '.']);
            }
            return Err(CodecError::InvalidPath);
        }
        proof {
            assert(spec_basename(fname@) != seq!['.', '.']) by {
                if spec_basename(fname@) == seq!['.', '.'] {
                    assert(base@[0] == '.' && base@[1] == '.');
                }
            }
        }
    } else {
        proof {
            assert(spec_basename(fname@) != seq!['.', '.']) by {
                if spec_basename(fname@) == seq!['.', '.'] {
                    assert(base@.len() == 2);
                }
            }
        }
    }
    Ok(base.to_owned())
}

/// The payload region begins at the first 1024-byte boundary at or after
/// the end of the encrypted entry table.
pub open spec fn align1024(x: int) -> int {
    1024 * ((x + 1023) / 1024)
}

/// Rounds the entry-table end up to the payload region start.  The result
/// is both the arithmetic rounding and the documented mask form
/// `(x + 1023) & !1023`.
pub fn payload_region_start(x: u64) -> (r: u64)
    requires
        x + 1023 <= u64::MAX,
    ensures
        r == align1024(x as int),
        r == ((x + 1023) as u64) & !1023u64,
        x <= r < x + 1024,
        r % 1024 == 0,
{
    let r = ((x + 1023) / 1024) * 1024;
    proof {
        assert(r == align1024(x as int) && x <= r < x + 1024 && r % 1024 == 0) by (nonlinear_arith)
            requires
                r == 1024 * ((x + 1023) / 1024),
                x + 1023 <= u64::MAX,
        ;
        assert(((x + 1023) as u64) & !1023u64 == (((x + 1023) as u64) / 1024) * 1024)
            by (bit_vector);
        assert((x + 1023) as u64 == x + 1023);
    }
    r
}

} // verus!
