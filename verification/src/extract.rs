//! Payload extraction: locating an entry's stored bytes in the payload
//! region, undoing full or head-only encryption, and inflating compressed
//! payloads.

use vstd::prelude::*;

verus! {

use crate::common::EntryV;
use crate::common::FileEntry;
use crate::common::FLAG_ALL_ENCRYPTED;
use crate::common::FLAG_COMPRESSED;
use crate::common::FLAG_HEAD_ENCRYPTED;
use crate::encryption::Snow2Decoder;
use crate::encryption::decrypt_stream;
use crate::encryption::gen_file_key;
use crate::encryption::lemma_decrypt_len;
use crate::encryption::spec_file_key_byte;
use crate::errors::CodecError;
use crate::text::utf16_encode;
use crate::zlib::inflate_zlib;
use crate::zlib::zlib_inflate;
use vstd::slice::slice_subrange;
use vstd::slice::slice_to_vec;
use crate::common::FileHeader;
use crate::common::get_final_file_name;
use crate::common::header_ok;
use crate::common::header_plain;
use crate::common::header_sane;
use crate::common::parsed_header;
use crate::common::read_entries;
use crate::common::payload_region_start;
use crate::common::spec_basename;
use crate::common::table_search_ok;
use crate::common::try_read_and_validate_header;
use crate::common::validate_entries;
use crate::common::views_of;
use crate::common::entry_ok;
use crate::common::align1024;
use crate::encryption::base_units;
use crate::encryption::spec_header_offset;
use crate::filter::NameFilter;
use crate::filter::entry_passes;
use crate::filter::passes_filters;
use crate::filter::patterns_of;
use crate::filter::make_regex;
use crate::filter::regex_pattern_ok;
use crate::list::salt_good_table;
use crate::list::lemma_no_good_table_none;
use crate::list::lemma_no_good_table_bad_entries;
use crate::salts::build_salt_candidates;
use crate::salts::salt_candidates;
use crate::salts::is_salt_candidate;
use crate::salts::opt_salt_view;
use crate::salts::string_views;

/// The 128-byte per-entry file key as a sequence.
pub open spec fn file_key_of(name: Seq<char>, key2: Seq<u8>) -> Seq<u8> {
    Seq::new(128, |i: int| spec_file_key_byte(utf16_encode(name), key2, i))
}

/// The stored bytes of an entry, read from the payload region: decrypted
/// under the file key when the payload is fully encrypted, raw otherwise.
pub open spec fn raw_content(data: Seq<u8>, content_start: int, e: EntryV) -> Result<
    Seq<u8>,
    CodecError,
> {
    let st = content_start + e.offset * 1024;
    if e.flags & FLAG_ALL_ENCRYPTED != 0 {
        let plain = decrypt_stream(file_key_of(e.name, e.key), data.skip(st));
        if st <= data.len() && e.raw_size <= plain.len() {
            Result::Ok(plain.take(e.raw_size as int))
        } else {
            Result::Err(CodecError::IoShort)
        }
    } else {
        if st + e.raw_size <= data.len() {
            Result::Ok(data.subrange(st, st + e.raw_size))
        } else {
            Result::Err(CodecError::IoShort)
        }
    }
}

/// The head-decryption step: the first `min(raw_size, 1024)` bytes are
/// re-decrypted in memory with a fresh keystream.  A sub-word head (fewer
/// than 1024 stored bytes, not a multiple of four) cannot cover a whole
/// cipher word and fails as a short read.
pub open spec fn after_head(content: Seq<u8>, e: EntryV) -> Result<Seq<u8>, CodecError> {
    if e.flags & FLAG_HEAD_ENCRYPTED == 0 {
        Result::Ok(content)
    } else {
        let dl = if e.raw_size < 1024 {
            e.raw_size as int
        } else {
            1024
        };
        if dl == 0 {
            Result::Ok(content)
        } else if dl % 4 == 0 {
            Result::Ok(
                decrypt_stream(file_key_of(e.name, e.key), content.take(dl)) + content.skip(dl),
            )
        } else {
            Result::Err(CodecError::IoShort)
        }
    }
}

/// The decompression step: a compressed entry with `raw_size == 0` is an
/// empty file; otherwise the content must inflate to exactly
/// `original_size` bytes.
pub open spec fn after_inflate(content: Seq<u8>, e: EntryV) -> Result<Seq<u8>, CodecError> {
    if e.flags & FLAG_COMPRESSED == 0 {
        Result::Ok(content)
    } else if e.raw_size == 0 {
        Result::Ok(Seq::empty())
    } else {
        match zlib_inflate(content) {
            Option::Some(v) => if v.len() == e.original_size {
                Result::Ok(v)
            } else {
                Result::Err(CodecError::InflateFailed)
            },
            Option::None => Result::Err(CodecError::InflateFailed),
        }
    }
}

/// The whole extraction of one entry from the payload region.
pub open spec fn extract_spec(data: Seq<u8>, content_start: int, e: EntryV) -> Result<
    Seq<u8>,
    CodecError,
> {
    match raw_content(data, content_start, e) {
        Result::Ok(c) => match after_head(c, e) {
            Result::Ok(c2) => after_inflate(c2, e),
            Result::Err(er) => Result::Err(er),
        },
        Result::Err(er) => Result::Err(er),
    }
}

/// Extracts one entry's payload from the archive bytes.
///
/// `content_data_start_offset` is the absolute start of the payload
/// region; the entry's stored bytes begin `offset * 1024` bytes after it.
#[verifier::rlimit(60)]
pub fn extract_file(data: &[u8], content_data_start_offset: u64, ent: &FileEntry) -> (r: Result<
    Vec<u8>,
    CodecError,
>)
    requires
        ent.key@.len() == 16,
        ent.name@.len() > 0,
        data@.len() + 8500 <= usize::MAX,
    ensures
        ({
            let sp = extract_spec(data@, content_data_start_offset as int, ent@);
            &&& (r is Ok <==> sp is Ok)
            &&& (r is Ok ==> r->Ok_0@ == sp->Ok_0)
            &&& (r is Err ==> r->Err_0 == sp->Err_0)
        }),
{
    let ghost ev = ent@;
    let st128: u128 = content_data_start_offset as u128 + ent.offset as u128 * 1024;
    let ghost st: int = content_data_start_offset + ev.offset * 1024;
    proof {
        assert(st128 == st);
    }
    let fkey = gen_file_key(ent.name.as_str(), &ent.key);
    proof {
        assert(fkey@ =~= file_key_of(ev.name, ev.key));
    }
    let mut content: Vec<u8>;
    if ent.flags & FLAG_ALL_ENCRYPTED != 0 {
        if st128 > data.len() as u128 || ent.raw_size as u128 > data.len() as u128 {
            proof {
                if st <= data@.len() {
                    lemma_decrypt_len(file_key_of(ev.name, ev.key), data@.skip(st));
                    assert(4 * ((data@.len() - st) as int / 4) <= data@.len() - st)
                        by (nonlinear_arith)
                        requires
                            data@.len() - st >= 0,
                    ;
                }
            }
            return Err(CodecError::IoShort);
        }
        let mut dec = Snow2Decoder::new(&fkey, data, st128 as usize);
        content = match dec.read_exact(ent.raw_size as usize) {
            Ok(v) => v,
            Err(_) => {
                proof {
                    lemma_decrypt_len(file_key_of(ev.name, ev.key), data@.skip(st));
                }
                return Err(CodecError::IoShort);
            },
        };
        proof {
            assert(content@ =~= decrypt_stream(file_key_of(ev.name, ev.key), data@.skip(st)).take(
                ev.raw_size as int,
            ));
        }
    } else {
        if st128 + ent.raw_size as u128 > data.len() as u128 {
            return Err(CodecError::IoShort);
        }
        let stu = st128 as usize;
        content = slice_to_vec(slice_subrange(data, stu, stu + ent.raw_size as usize));
        proof {
            assert(content@ =~= data@.subrange(st, st + ev.raw_size));
        }
    }
    let ghost raw_c = content@;
    proof {
        assert(raw_content(data@, content_data_start_offset as int, ev) == Result::<
            Seq<u8>,
            CodecError,
        >::Ok(raw_c));
    }
    if ent.flags & FLAG_HEAD_ENCRYPTED != 0 {
        let dl = if (ent.raw_size as u64) < 1024 {
            ent.raw_size as usize
        } else {
            1024
        };
        if dl > 0 {
            if dl % 4 != 0 {
                return Err(CodecError::IoShort);
            }
            proof {
                assert(content@.len() == ev.raw_size);
            }
            let head_src = slice_to_vec(slice_subrange(content.as_slice(), 0, dl));
            proof {
                assert(head_src@ =~= raw_c.take(dl as int));
            }
            let mut hdec = Snow2Decoder::new(&fkey, head_src.as_slice(), 0);
            proof {
                assert(head_src@.skip(0) =~= head_src@);
                assert(hdec.cipher_region() == head_src@);
                lemma_decrypt_len(fkey@, head_src@);
                assert(4 * ((dl as int) / 4) == dl) by (nonlinear_arith)
                    requires
                        dl % 4 == 0,
                        dl >= 0,
                ;
                assert(hdec.plaintext().len() == dl);
                assert(hdec.can_serve(dl as int));
            }
            let head = match hdec.read_exact(dl) {
                Ok(v) => v,
                Err(_) => {
                    proof {
                        assert(false);
                    }
                    return Err(CodecError::IoShort);
                },
            };
            proof {
                let pd = decrypt_stream(file_key_of(ev.name, ev.key), raw_c.take(dl as int));
                assert(fkey@ == file_key_of(ev.name, ev.key));
                assert(head_src@ == raw_c.take(dl as int));
                assert(pd.len() == dl) by {
                    lemma_decrypt_len(file_key_of(ev.name, ev.key), raw_c.take(dl as int));
                }
                assert(head@ =~= pd);
            }
            let mut spliced = head;
            proof {
                assert(raw_c.subrange(dl as int, dl as int) =~= Seq::<u8>::empty());
                assert(spliced@ =~= decrypt_stream(file_key_of(ev.name, ev.key), raw_c.take(
                    dl as int,
                )) + raw_c.subrange(dl as int, dl as int));
            }
            let n = content.len();
            let mut i = dl;
            while i < n
                invariant
                    dl <= i <= n,
                    n == content@.len(),
                    spliced@ == decrypt_stream(file_key_of(ev.name, ev.key), raw_c.take(
                        dl as int,
                    )) + raw_c.subrange(dl as int, i as int),
                    raw_c == content@,
                decreases n - i,
            {
                spliced.push(content[i]);
                proof {
                    assert(spliced@ =~= decrypt_stream(file_key_of(ev.name, ev.key), raw_c.take(
                        dl as int,
                    )) + raw_c.subrange(dl as int, i + 1));
                }
                i = i + 1;
            }
            content = spliced;
            proof {
                assert(raw_c.subrange(dl as int, n as int) =~= raw_c.skip(dl as int));
                assert(decrypt_stream(file_key_of(ev.name, ev.key), raw_c.take(dl as int)).take(
                    dl as int,
                ) =~= decrypt_stream(file_key_of(ev.name, ev.key), raw_c.take(dl as int))) by {
                    lemma_decrypt_len(file_key_of(ev.name, ev.key), raw_c.take(dl as int));
                }
                assert(after_head(raw_c, ev) == Result::<Seq<u8>, CodecError>::Ok(content@));
            }
        } else {
            proof {
                assert(after_head(raw_c, ev) == Result::<Seq<u8>, CodecError>::Ok(raw_c));
            }
        }
    }
    let ghost headed = content@;
    proof {
        assert(after_head(raw_c, ev) == Result::<Seq<u8>, CodecError>::Ok(headed));
    }
    if ent.flags & FLAG_COMPRESSED != 0 {
        if ent.raw_size == 0 {
            content = Vec::new();
            proof {
                assert(content@ =~= Seq::<u8>::empty());
            }
        } else {
            content = match inflate_zlib(&content) {
                Some(v) => v,
                None => {
                    return Err(CodecError::InflateFailed);
                },
            };
            if content.len() as u64 != ent.original_size as u64 {
                return Err(CodecError::InflateFailed);
            }
        }
    }
    Ok(content)
}


// ---------------------------------------------------------------------------
// The salt and header-offset search for extraction.
// ---------------------------------------------------------------------------

/// Whether an absolute offset is a candidate header position for formula
/// offset `f`: the well-known fixed offsets, the formula offset, and its
/// near misses.
pub open spec fn is_header_candidate(o: int, f: int) -> bool {
    ||| o == 0x20
    ||| o == 0x30
    ||| o == 0x40
    ||| o == 0x60
    ||| o == 0x80
    ||| o == 0x100
    ||| o == f
    ||| (f > 8 && (o == f - 8 || o == f - 4))
    ||| o == f + 4
    ||| o == f + 8
}

/// Inserts a value into an ascending list unless it is already present.
fn insert_sorted(v: &mut Vec<u64>, x: u64)
    ensures
        final(v)@.len() <= old(v)@.len() + 1,
        forall|j: int|
            0 <= j < final(v)@.len() ==> ((#[trigger] final(v)@[j]) == x || old(v)@.contains(
                final(v)@[j],
            )),
        final(v)@.contains(x),
        forall|y: u64| old(v)@.contains(y) ==> final(v)@.contains(y),
{
    let n = v.len();
    let mut i: usize = 0;
    while i < n
        invariant
            n == v@.len(),
            i <= n,
            v@ == old(v)@,
            forall|j: int| 0 <= j < i ==> v@[j] != x,
        decreases n - i,
    {
        if v[i] == x {
            proof {
                assert(v@.contains(x)) by {
                    assert(v@[i as int] == x);
                }
                assert forall|j: int| 0 <= j < v@.len() implies ((#[trigger] v@[j]) == x
                    || old(v)@.contains(v@[j])) by {
                    assert(old(v)@[j] == v@[j]);
                }
            }
            return ;
        }
        if v[i] > x {
            let ghost before = v@;
            v.insert(i, x);
            proof {
                assert(v@[i as int] == x);
                assert(v@.contains(x));
                assert forall|j: int| 0 <= j < v@.len() implies ((#[trigger] v@[j]) == x
                    || before.contains(v@[j])) by {
                    if j < i {
                        assert(v@[j] == before[j]);
                    } else if j > i {
                        assert(v@[j] == before[j - 1]);
                    }
                }
                assert forall|y: u64| before.contains(y) implies v@.contains(y) by {
                    let t = choose|t: int| 0 <= t < before.len() && before[t] == y;
                    if t < i {
                        assert(v@[t] == y);
                    } else {
                        assert(v@[t + 1] == y);
                    }
                }
            }
            return ;
        }
        i = i + 1;
    }
    let ghost before = v@;
    v.push(x);
    proof {
        assert(v@[v@.len() - 1] == x);
        assert(v@.contains(x));
        assert forall|j: int| 0 <= j < v@.len() implies ((#[trigger] v@[j]) == x
            || before.contains(v@[j])) by {
            if j < before.len() {
                assert(v@[j] == before[j]);
            }
        }
        assert forall|y: u64| before.contains(y) implies v@.contains(y) by {
            let t = choose|t: int| 0 <= t < before.len() && before[t] == y;
            assert(v@[t] == y);
        }
    }
}

/// The sorted, deduplicated candidate header offsets for a formula offset.
fn build_header_candidates(formula: u64) -> (r: Vec<u64>)
    requires
        formula < 342,
    ensures
        forall|j: int|
            0 <= j < r@.len() ==> is_header_candidate((#[trigger] r@[j]) as int, formula as int),
        forall|o: u64| #[trigger]
            is_header_candidate(o as int, formula as int) && o <= 350 ==> r@.contains(o),
{
    let mut v: Vec<u64> = Vec::new();
    insert_sorted(&mut v, 0x20);
    insert_sorted(&mut v, 0x30);
    insert_sorted(&mut v, 0x40);
    insert_sorted(&mut v, 0x60);
    insert_sorted(&mut v, 0x80);
    insert_sorted(&mut v, 0x100);
    insert_sorted(&mut v, formula);
    if formula > 8 {
        insert_sorted(&mut v, formula - 8);
        insert_sorted(&mut v, formula - 4);
    }
    insert_sorted(&mut v, formula + 4);
    insert_sorted(&mut v, formula + 8);
    v
}

/// Whether a salt opens a sane, checksum-valid header at an offset.
pub open spec fn xheader_ok(name: Seq<char>, hs: Seq<char>, data: Seq<u8>, off: int) -> bool {
    let hp = header_plain(name, hs, data, off);
    off <= data.len() && hp.len() >= 9 && header_ok(parsed_header(hp)) && header_sane(
        parsed_header(hp),
    )
}

/// The entry count the header at an offset names under a salt.
pub open spec fn xheader_cnt(name: Seq<char>, hs: Seq<char>, data: Seq<u8>, off: int) -> nat {
    parsed_header(header_plain(name, hs, data, off)).file_cnt as nat
}

/// The extraction of a filtered entry sequence: each entry whose name
/// passes the filters contributes its payload, in table order; the first
/// failing entry aborts.
pub open spec fn extract_all(
    data: Seq<u8>,
    cstart: int,
    es: Seq<EntryV>,
    pats: Seq<Seq<char>>,
) -> Result<Seq<(Seq<char>, Seq<u8>)>, CodecError>
    decreases es.len(),
{
    if es.len() == 0 {
        Result::Ok(Seq::empty())
    } else if passes_filters(pats, es[0].name) {
        match extract_spec(data, cstart, es[0]) {
            Result::Ok(c) => match extract_all(data, cstart, es.skip(1), pats) {
                Result::Ok(rest) => Result::Ok(seq![(es[0].name, c)] + rest),
                Result::Err(x) => Result::Err(x),
            },
            Result::Err(x) => Result::Err(x),
        }
    } else {
        extract_all(data, cstart, es.skip(1), pats)
    }
}

/// The views of extracted (name, content) pairs.
pub open spec fn out_views(v: Seq<(String, Vec<u8>)>) -> Seq<(Seq<char>, Seq<u8>)> {
    v.map_values(|p: (String, Vec<u8>)| (p.0@, p.1@))
}

/// Extracts every entry that passes the filters, in table order.
#[verifier::rlimit(100)]
fn extract_entries(
    data: &[u8],
    cstart: u64,
    entries: &Vec<FileEntry>,
    filters: &Vec<NameFilter>,
) -> (r: Result<Vec<(String, Vec<u8>)>, CodecError>)
    requires
        data@.len() + 8500 <= usize::MAX,
        forall|k: int|
            0 <= k < entries@.len() ==> (#[trigger] entries@[k]).key@.len() == 16
                && entries@[k].name@.len() > 0,
    ensures
        ({
            let sp = extract_all(data@, cstart as int, views_of(entries@), patterns_of(filters@));
            &&& (r is Ok <==> sp is Ok)
            &&& (r is Ok ==> out_views(r->Ok_0@) == sp->Ok_0)
            &&& (r is Err ==> Result::<Seq<(Seq<char>, Seq<u8>)>, CodecError>::Err(r->Err_0) == sp)
        }),
{
    let ghost vs = views_of(entries@);
    let ghost pats = patterns_of(filters@);
    let n = entries.len();
    let mut out: Vec<(String, Vec<u8>)> = Vec::new();
    let mut i: usize = 0;
    proof {
        assert(vs.skip(0) =~= vs);
        assert(out_views(out@) =~= Seq::<(Seq<char>, Seq<u8>)>::empty());
    }
    while i < n
        invariant
            n == entries@.len(),
            i <= n,
            data@.len() + 8500 <= usize::MAX,
            vs == views_of(entries@),
            pats == patterns_of(filters@),
            forall|k: int|
                0 <= k < entries@.len() ==> (#[trigger] entries@[k]).key@.len() == 16
                    && entries@[k].name@.len() > 0,
            extract_all(data@, cstart as int, vs, pats) is Ok <==> extract_all(
                data@,
                cstart as int,
                vs.skip(i as int),
                pats,
            ) is Ok,
            extract_all(data@, cstart as int, vs, pats) is Ok ==> extract_all(
                data@,
                cstart as int,
                vs,
                pats,
            ) == Result::<Seq<(Seq<char>, Seq<u8>)>, CodecError>::Ok(
                out_views(out@) + extract_all(data@, cstart as int, vs.skip(i as int), pats)->Ok_0,
            ),
            extract_all(data@, cstart as int, vs, pats) is Err ==> extract_all(
                data@,
                cstart as int,
                vs,
                pats,
            ) == extract_all(data@, cstart as int, vs.skip(i as int), pats),
        decreases n - i,
    {
        let ghost pre = vs.skip(i as int);
        proof {
            assert(pre[0] == vs[i as int]);
            assert(pre.skip(1) =~= vs.skip(i + 1));
            assert(vs[i as int] == entries@[i as int]@);
        }
        let ent = &entries[i];
        if entry_passes(filters, ent.name.as_str()) {
            let content = match extract_file(data, cstart, ent) {
                Ok(c) => c,
                Err(e) => {
                    return Err(e);
                },
            };
            let ghost out0 = out@;
            out.push((ent.name.clone(), content));
            proof {
                assert(out_views(out@) =~= out_views(out0).push((vs[i as int].name, content@)));
                if extract_all(data@, cstart as int, vs.skip(i + 1), pats) is Ok {
                    let rest = extract_all(data@, cstart as int, vs.skip(i + 1), pats)->Ok_0;
                    assert(out_views(out0) + (seq![(vs[i as int].name, content@)] + rest)
                        =~= out_views(out@) + rest);
                }
            }
        }
        i = i + 1;
    }
    proof {
        assert(vs.skip(n as int) =~= Seq::<EntryV>::empty());
        if extract_all(data@, cstart as int, vs, pats) is Ok {
            assert(out_views(out@) + Seq::<(Seq<char>, Seq<u8>)>::empty() =~= out_views(out@));
        }
    }
    Ok(out)
}

/// Tries one entries salt for the table; `None` when it parses no fully
/// valid table.
fn try_salt_for_table(name: &str, header: &FileHeader, es: &str, data: &[u8]) -> (r: Option<
    (Vec<FileEntry>, u64),
>)
    requires
        name@.len() > 0,
        data@.len() + 8500 <= usize::MAX,
    ensures
        r is Some ==> ({
            &&& table_search_ok(
                name@,
                es@,
                data@,
                header.file_cnt as nat,
                false,
                views_of((r->0).0@),
                (r->0).1 as int,
            )
            &&& (forall|k: int|
                0 <= k < views_of((r->0).0@).len() ==> entry_ok(#[trigger] views_of((r->0).0@)[k]))
            &&& (r->0).1 <= data@.len()
            &&& (forall|k: int|
                0 <= k < (r->0).0@.len() ==> (#[trigger] (r->0).0@[k]).key@.len() == 16 && (
                r->0).0@[k].name@.len() > 0)
        }),
        r is None ==> !salt_good_table(name@, es@, data@, header.file_cnt as nat),
{
    let (ents, table_end) = match read_entries(name, header, es, data, false) {
        Ok(p) => p,
        Err(_) => {
            proof {
                lemma_no_good_table_none(name@, es@, data@, header.file_cnt as nat);
            }
            return None;
        },
    };
    if validate_entries(&ents).is_err() {
        proof {
            assert(!(forall|k: int|
                0 <= k < views_of(ents@).len() ==> entry_ok(#[trigger] views_of(ents@)[k]))) by {
                if forall|k: int|
                    0 <= k < views_of(ents@).len() ==> entry_ok(#[trigger] views_of(ents@)[k]) {
                    assert forall|t: int| 0 <= t < ents@.len() implies entry_ok(
                        #[trigger] ents@[t]@,
                    ) by {
                        assert(views_of(ents@)[t] == ents@[t]@);
                        assert(entry_ok(views_of(ents@)[t]));
                    }
                }
            }
            lemma_no_good_table_bad_entries(
                name@,
                es@,
                data@,
                header.file_cnt as nat,
                views_of(ents@),
                table_end as int,
            );
        }
        return None;
    }
    proof {
        assert forall|k: int| 0 <= k < views_of(ents@).len() implies entry_ok(
            #[trigger] views_of(ents@)[k],
        ) by {
            assert(views_of(ents@)[k] == ents@[k]@);
        }
    }
    Some((ents, table_end))
}

/// Tries the header's own salt and then every candidate salt on the table.
fn search_table_salts(
    name: &str,
    header: &FileHeader,
    hs: &String,
    keys: &Vec<String>,
    data: &[u8],
) -> (r: Option<(Vec<FileEntry>, u64, Ghost<Seq<char>>)>)
    requires
        name@.len() > 0,
        data@.len() + 8500 <= usize::MAX,
    ensures
        r is Some ==> ({
            let es = (r->0).2@;
            &&& (es == hs@ || (!salt_good_table(name@, hs@, data@, header.file_cnt as nat) && (
            exists|t: int|
                0 <= t < keys@.len() && (#[trigger] keys@[t])@ == es && (forall|u: int|
                    0 <= u < t ==> !salt_good_table(
                        name@,
                        (#[trigger] keys@[u])@,
                        data@,
                        header.file_cnt as nat,
                    )))))
            &&& table_search_ok(
                name@,
                es,
                data@,
                header.file_cnt as nat,
                false,
                views_of((r->0).0@),
                (r->0).1 as int,
            )
            &&& (forall|k: int|
                0 <= k < views_of((r->0).0@).len() ==> entry_ok(#[trigger] views_of((r->0).0@)[k]))
            &&& (r->0).1 <= data@.len()
            &&& (forall|k: int|
                0 <= k < (r->0).0@.len() ==> (#[trigger] (r->0).0@[k]).key@.len() == 16 && (
                r->0).0@[k].name@.len() > 0)
        }),
        r is None ==> !salt_good_table(name@, hs@, data@, header.file_cnt as nat) && (forall|
            j: int,
        |
            0 <= j < keys@.len() ==> !salt_good_table(
                name@,
                (#[trigger] keys@[j])@,
                data@,
                header.file_cnt as nat,
            )),
{
    let ghost cnt = header.file_cnt as nat;
    match try_salt_for_table(name, header, hs.as_str(), data) {
        Some(p) => {
            let (ents, end) = p;
            return Some((ents, end, Ghost(hs@)));
        },
        None => {},
    }
    let nk = keys.len();
    let mut idx: usize = 0;
    while idx < nk
        invariant
            nk == keys@.len(),
            idx <= nk,
            name@.len() > 0,
            data@.len() + 8500 <= usize::MAX,
            cnt == header.file_cnt as nat,
            !salt_good_table(name@, hs@, data@, cnt),
            forall|j: int|
                0 <= j < idx ==> !salt_good_table(name@, (#[trigger] keys@[j])@, data@, cnt),
        decreases nk - idx,
    {
        let es = &keys[idx];
        match try_salt_for_table(name, header, es.as_str(), data) {
            Some(p) => {
                let (ents, end) = p;
                proof {
                    assert(keys@[idx as int]@ == es@);
                    assert(0 <= idx < keys@.len() && (keys@[idx as int])@ == es@ && (forall|
                        u: int,
                    |
                        0 <= u < idx ==> !salt_good_table(
                            name@,
                            (#[trigger] keys@[u])@,
                            data@,
                            cnt,
                        )));
                }
                return Some((ents, end, Ghost(es@)));
            },
            None => {},
        }
        idx = idx + 1;
    }
    None
}


/// One header salt is dead for extraction: at every candidate offset it
/// opens no sane valid header, or no candidate salt yields a good table.
#[verifier::opaque]
pub open spec fn extract_salt_dead(
    bn: Seq<char>,
    data: Seq<u8>,
    keys: Seq<String>,
    offs: Seq<u64>,
    j: int,
) -> bool {
    forall|oi: int|
        0 <= oi < offs.len() ==> (!xheader_ok(bn, keys[j]@, data, (#[trigger] offs[oi]) as int)
            || (!salt_good_table(
            bn,
            keys[j]@,
            data,
            xheader_cnt(bn, keys[j]@, data, offs[oi] as int),
        ) && (forall|t: int|
            0 <= t < keys.len() ==> !salt_good_table(
                bn,
                (#[trigger] keys[t])@,
                data,
                xheader_cnt(bn, keys[j]@, data, offs[oi] as int),
            ))))
}

/// Whether some candidate (header salt, header offset, entries salt)
/// combination opens a sane valid header and a fully checksum-valid table.
pub open spec fn search_combo(
    bn: Seq<char>,
    data: Seq<u8>,
    f: int,
    cli: Option<Seq<char>>,
    salts: Seq<Seq<char>>,
) -> bool {
    exists|hs: Seq<char>, off: int, es: Seq<char>|
        {
            &&& #[trigger] is_salt_candidate(hs, cli, salts)
            &&& #[trigger] is_salt_candidate(es, cli, salts)
            &&& #[trigger] is_header_candidate(off, f)
            &&& xheader_ok(bn, hs, data, off)
            &&& salt_good_table(bn, es, data, xheader_cnt(bn, hs, data, off))
        }
}

/// Every candidate header offset for a formula offset in range lies in
/// [0, 350].
proof fn lemma_header_candidate_range(o: int, f: int)
    requires
        is_header_candidate(o, f),
        30 <= f < 342,
    ensures
        0 <= o <= 350,
{
}

/// A candidate salt is dead for the extraction search: at every candidate
/// header offset it opens no sane valid header, or no candidate salt
/// yields a good table under that header.
pub open spec fn xsalt_dead(
    bn: Seq<char>,
    data: Seq<u8>,
    s: Seq<char>,
    all: Seq<Seq<char>>,
    f: int,
) -> bool {
    forall|off: int|
        #[trigger] is_header_candidate(off, f) ==> (!xheader_ok(bn, s, data, off) || (forall|
            t: int,
        |
            0 <= t < all.len() ==> !salt_good_table(
                bn,
                #[trigger] all[t],
                data,
                xheader_cnt(bn, s, data, off),
            )))
}

/// The key-and-offset-vector dead predicate carries over to its
/// character-level view, once the offset list holds every candidate.
proof fn lemma_xsalt_dead_views(
    bn: Seq<char>,
    data: Seq<u8>,
    keys: Seq<String>,
    offs: Seq<u64>,
    f: int,
    j: int,
)
    requires
        0 <= j < keys.len(),
        30 <= f < 342,
        extract_salt_dead(bn, data, keys, offs, j),
        forall|o: u64|
            #[trigger] is_header_candidate(o as int, f) && o <= 350 ==> offs.contains(o),
    ensures
        xsalt_dead(bn, data, string_views(keys)[j], string_views(keys), f),
{
    reveal(extract_salt_dead);
    assert(string_views(keys)[j] == keys[j]@);
    assert forall|off: int| #[trigger] is_header_candidate(off, f) implies (!xheader_ok(
        bn,
        keys[j]@,
        data,
        off,
    ) || (forall|t: int|
        0 <= t < string_views(keys).len() ==> !salt_good_table(
            bn,
            #[trigger] string_views(keys)[t],
            data,
            xheader_cnt(bn, keys[j]@, data, off),
        ))) by {
        lemma_header_candidate_range(off, f);
        let ou: u64 = off as u64;
        assert(is_header_candidate(ou as int, f));
        assert(offs.contains(ou));
        let oi = choose|oi: int| 0 <= oi < offs.len() && offs[oi] == ou;
        assert(!xheader_ok(bn, keys[j]@, data, (offs[oi]) as int) || (!salt_good_table(
            bn,
            keys[j]@,
            data,
            xheader_cnt(bn, keys[j]@, data, offs[oi] as int),
        ) && (forall|t: int|
            0 <= t < keys.len() ==> !salt_good_table(
                bn,
                (#[trigger] keys[t])@,
                data,
                xheader_cnt(bn, keys[j]@, data, offs[oi] as int),
            ))));
        if xheader_ok(bn, keys[j]@, data, off) {
            assert forall|t: int| 0 <= t < string_views(keys).len() implies !salt_good_table(
                bn,
                #[trigger] string_views(keys)[t],
                data,
                xheader_cnt(bn, keys[j]@, data, off),
            ) by {
                assert(string_views(keys)[t] == keys[t]@);
            }
        }
    }
}

/// Probes every candidate header offset for one header salt.
fn probe_offsets(
    name: &str,
    hs: &String,
    keys: &Vec<String>,
    offs: &Vec<u64>,
    data: &[u8],
) -> (r: Option<(Vec<FileEntry>, u64, Ghost<Seq<char>>, Ghost<int>)>)
    requires
        name@.len() > 0,
        data@.len() + 8500 <= usize::MAX,
    ensures
        r is Some ==> ({
            let ents = (r->0).0@;
            let end = (r->0).1 as int;
            let es = (r->0).2@;
            let off = (r->0).3@;
            &&& (exists|oi: int| 0 <= oi < offs@.len() && (#[trigger] offs@[oi]) as int == off)
            &&& xheader_ok(name@, hs@, data@, off)
            &&& (es == hs@ || (!salt_good_table(
                name@,
                hs@,
                data@,
                xheader_cnt(name@, hs@, data@, off),
            ) && (exists|t: int|
                0 <= t < keys@.len() && (#[trigger] keys@[t])@ == es && (forall|u: int|
                    0 <= u < t ==> !salt_good_table(
                        name@,
                        (#[trigger] keys@[u])@,
                        data@,
                        xheader_cnt(name@, hs@, data@, off),
                    )))))
            &&& table_search_ok(
                name@,
                es,
                data@,
                xheader_cnt(name@, hs@, data@, off),
                false,
                views_of(ents),
                end,
            )
            &&& (forall|k: int| 0 <= k < views_of(ents).len() ==> entry_ok(#[trigger] views_of(ents)[k]))
            &&& end <= data@.len()
            &&& (forall|k: int|
                0 <= k < ents.len() ==> (#[trigger] ents[k]).key@.len() == 16 && ents[k].name@.len()
                    > 0)
        }),
        r is None ==> (forall|oi: int|
            0 <= oi < offs@.len() ==> (!xheader_ok(name@, hs@, data@, (#[trigger] offs@[oi]) as int)
                || (!salt_good_table(
                name@,
                hs@,
                data@,
                xheader_cnt(name@, hs@, data@, offs@[oi] as int),
            ) && (forall|t: int|
                0 <= t < keys@.len() ==> !salt_good_table(
                    name@,
                    (#[trigger] keys@[t])@,
                    data@,
                    xheader_cnt(name@, hs@, data@, offs@[oi] as int),
                ))))),
{
    let no = offs.len();
    let mut oi: usize = 0;
    while oi < no
        invariant
            no == offs@.len(),
            oi <= no,
            name@.len() > 0,
            data@.len() + 8500 <= usize::MAX,
            forall|q: int|
                0 <= q < oi ==> (!xheader_ok(name@, hs@, data@, (#[trigger] offs@[q]) as int) || (
                !salt_good_table(
                    name@,
                    hs@,
                    data@,
                    xheader_cnt(name@, hs@, data@, offs@[q] as int),
                ) && (forall|t: int|
                    0 <= t < keys@.len() ==> !salt_good_table(
                        name@,
                        (#[trigger] keys@[t])@,
                        data@,
                        xheader_cnt(name@, hs@, data@, offs@[q] as int),
                    )))),
        decreases no - oi,
    {
        let off = offs[oi];
        let probe = match try_read_and_validate_header(data, name, hs.as_str(), off) {
            Ok(p) => p,
            Err(_) => {
                proof {
                    assert(!xheader_ok(name@, hs@, data@, off as int));
                }
                None
            },
        };
        match probe {
            Some(pair) => {
                let (header, _raw_pos) = pair;
                proof {
                    assert(xheader_ok(name@, hs@, data@, off as int));
                    assert(header.file_cnt as nat == xheader_cnt(name@, hs@, data@, off as int));
                }
                match search_table_salts(name, &header, hs, keys, data) {
                    Some(trip) => {
                        let (ents, end, es_g) = trip;
                        return Some((ents, end, es_g, Ghost(off as int)));
                    },
                    None => {},
                }
            },
            None => {
                proof {
                    if off as int <= data@.len() {
                        assert(!xheader_ok(name@, hs@, data@, off as int) || !salt_good_table(
                            name@,
                            hs@,
                            data@,
                            xheader_cnt(name@, hs@, data@, off as int),
                        ));
                    }
                }
            },
        }
        oi = oi + 1;
    }
    None
}

/// Extracts the selected entries of an archive by probing candidate salts
/// and candidate header offsets: for each salt, the well-known and
/// formula-derived offsets in ascending order; for each sane, valid header,
/// the header's own salt and then every candidate salt on the entry table.
/// The contract pins the winner: the first live header salt of the
/// candidate list and, under it, the header salt itself or the first
/// candidate salt with a fully valid table.  Entries whose names pass the
/// (OR-combined) filters are extracted in table order; a payload failure
/// aborts the run.
#[verifier::rlimit(100)]
pub fn run_extract_with_key_and_offset_search(
    data: &[u8],
    fname: &str,
    cli_skey: &Option<String>,
    loaded_salts: &Vec<String>,
    filters_cli: &Vec<String>,
) -> (r: Result<Vec<(String, Vec<u8>)>, CodecError>)
    requires
        data@.len() + 8500 <= usize::MAX,
    ensures
        ({
            let cli = opt_salt_view(*cli_skey);
            let salts = string_views(loaded_salts@);
            let bn = spec_basename(fname@);
            let f = spec_header_offset(base_units(bn));
            let pats = string_views(filters_cli@);
            &&& (r == Result::<Vec<(String, Vec<u8>)>, CodecError>::Err(CodecError::NoSalts)
                <==> (cli is None && salts.len() == 0))
            &&& (r is Ok ==> (exists|
                hs: Seq<char>,
                es: Seq<char>,
                off: int,
                views: Seq<EntryV>,
                end: int,
            |
                {
                    &&& is_salt_candidate(hs, cli, salts)
                    &&& is_salt_candidate(es, cli, salts)
                    &&& is_header_candidate(off, f)
                    &&& xheader_ok(bn, hs, data@, off)
                    &&& #[trigger] table_search_ok(
                        bn,
                        es,
                        data@,
                        xheader_cnt(bn, hs, data@, off),
                        false,
                        views,
                        end,
                    )
                    &&& (forall|k: int| 0 <= k < views.len() ==> entry_ok(#[trigger] views[k]))
                    &&& extract_all(data@, align1024(end), views, pats) == Result::<
                        Seq<(Seq<char>, Seq<u8>)>,
                        CodecError,
                    >::Ok(out_views(r->Ok_0@))
                }))
            &&& (r is Err && r->Err_0 != CodecError::NoSalts && r->Err_0 != CodecError::InvalidPath
                && r->Err_0 != CodecError::InvalidRegex && r->Err_0
                != CodecError::ParametersExhausted ==> (exists|
                hs: Seq<char>,
                es: Seq<char>,
                off: int,
                views: Seq<EntryV>,
                end: int,
            |
                {
                    &&& is_salt_candidate(hs, cli, salts)
                    &&& is_salt_candidate(es, cli, salts)
                    &&& is_header_candidate(off, f)
                    &&& xheader_ok(bn, hs, data@, off)
                    &&& #[trigger] table_search_ok(
                        bn,
                        es,
                        data@,
                        xheader_cnt(bn, hs, data@, off),
                        false,
                        views,
                        end,
                    )
                    &&& (forall|k: int| 0 <= k < views.len() ==> entry_ok(#[trigger] views[k]))
                    &&& extract_all(data@, align1024(end), views, pats) == Result::<
                        Seq<(Seq<char>, Seq<u8>)>,
                        CodecError,
                    >::Err(r->Err_0)
                }))
            &&& (r is Err ==> (r->Err_0 == CodecError::NoSalts || r->Err_0
                == CodecError::InvalidPath || r->Err_0 == CodecError::InvalidRegex || r->Err_0
                == CodecError::ParametersExhausted || r->Err_0 == CodecError::IoShort || r->Err_0
                == CodecError::InflateFailed))
            &&& (!(cli is None && salts.len() == 0) ==> (r == Result::<
                Vec<(String, Vec<u8>)>,
                CodecError,
            >::Err(CodecError::InvalidPath) <==> !(bn.len() > 0 && bn != seq!['.', '.'])))
            &&& (!(cli is None && salts.len() == 0) && bn.len() > 0 && bn != seq!['.', '.'] ==> (
            r == Result::<Vec<(String, Vec<u8>)>, CodecError>::Err(CodecError::InvalidRegex)
                <==> !(forall|i: int|
                0 <= i < filters_cli@.len() ==> regex_pattern_ok(#[trigger] filters_cli@[i]@))))
            &&& (r is Err && r->Err_0 == CodecError::ParametersExhausted ==> !search_combo(
                bn,
                data@,
                f,
                cli,
                salts,
            ))
            &&& (!(cli is None && salts.len() == 0) && bn.len() > 0 && bn != seq!['.', '.'] && (
            forall|i: int|
                0 <= i < filters_cli@.len() ==> regex_pattern_ok(#[trigger] filters_cli@[i]@))
                && search_combo(bn, data@, f, cli, salts) ==> (r is Ok || r == Result::<
                Vec<(String, Vec<u8>)>,
                CodecError,
            >::Err(CodecError::IoShort) || r == Result::<Vec<(String, Vec<u8>)>, CodecError>::Err(
                CodecError::InflateFailed,
            )))
            &&& (r is Ok ==> ({
                let cands = salt_candidates(cli, salts);
                exists|i: int, es: Seq<char>, off: int, views: Seq<EntryV>, end: int|
                    {
                        &&& 0 <= i < cands.len()
                        &&& (forall|j: int|
                            0 <= j < i ==> xsalt_dead(bn, data@, #[trigger] cands[j], cands, f))
                        &&& is_salt_candidate(es, cli, salts)
                        &&& is_header_candidate(off, f)
                        &&& xheader_ok(bn, cands[i], data@, off)
                        &&& (es == cands[i] || (!salt_good_table(
                            bn,
                            cands[i],
                            data@,
                            xheader_cnt(bn, cands[i], data@, off),
                        ) && (exists|t: int|
                            0 <= t < cands.len() && cands[t] == es && (forall|u: int|
                                0 <= u < t ==> !salt_good_table(
                                    bn,
                                    #[trigger] cands[u],
                                    data@,
                                    xheader_cnt(bn, cands[i], data@, off),
                                )))))
                        &&& #[trigger] table_search_ok(
                            bn,
                            es,
                            data@,
                            xheader_cnt(bn, cands[i], data@, off),
                            false,
                            views,
                            end,
                        )
                        &&& (forall|k: int| 0 <= k < views.len() ==> entry_ok(#[trigger] views[k]))
                        &&& extract_all(data@, align1024(end), views, pats) == Result::<
                            Seq<(Seq<char>, Seq<u8>)>,
                            CodecError,
                        >::Ok(out_views(r->Ok_0@))
                    }
            }))
        }),
{
    let ghost cli = opt_salt_view(*cli_skey);
    let ghost salts = string_views(loaded_salts@);
    let ghost bn = spec_basename(fname@);
    let keys = build_salt_candidates(cli_skey, loaded_salts);
    if keys.len() == 0 {
        return Err(CodecError::NoSalts);
    }
    let name = match get_final_file_name(fname) {
        Ok(s) => s,
        Err(_) => {
            return Err(CodecError::InvalidPath);
        },
    };
    let filters = match make_regex(filters_cli) {
        Ok(fs) => fs,
        Err(_) => {
            return Err(CodecError::InvalidRegex);
        },
    };
    let formula = crate::encryption::gen_header_offset(name.as_str());
    let offs = build_header_candidates(formula as u64);
    let nk = keys.len();
    let mut found: Option<(Vec<FileEntry>, u64)> = None;
    let ghost mut w_hs: Seq<char> = Seq::empty();
    let ghost mut w_es: Seq<char> = Seq::empty();
    let ghost mut w_off: int = 0;
    let ghost mut w_i: int = 0;
    let mut hi: usize = 0;
    while hi < nk && found.is_none()
        invariant
            nk == keys@.len(),
            nk > 0,
            hi <= nk,
            data@.len() + 8500 <= usize::MAX,
            name@ == bn,
            bn.len() > 0,
            formula == spec_header_offset(base_units(bn)),
            cli == opt_salt_view(*cli_skey),
            salts == string_views(loaded_salts@),
            cli is Some || salts.len() > 0,
            patterns_of(filters@) == string_views(filters_cli@),
            forall|j: int|
                0 <= j < keys@.len() ==> is_salt_candidate((#[trigger] keys@[j])@, cli, salts),
            forall|j: int|
                0 <= j < offs@.len() ==> is_header_candidate(
                    (#[trigger] offs@[j]) as int,
                    formula as int,
                ),
            found is None ==> (forall|j: int|
                0 <= j < hi ==> extract_salt_dead(bn, data@, keys@, offs@, j)),
            string_views(keys@) == salt_candidates(cli, salts),
            forall|o: u64|
                #[trigger] is_header_candidate(o as int, formula as int) && o <= 350
                    ==> offs@.contains(o),
            found is Some ==> ({
                let cands = salt_candidates(cli, salts);
                &&& 0 <= w_i < cands.len()
                &&& cands[w_i] == w_hs
                &&& (forall|j: int|
                    0 <= j < w_i ==> xsalt_dead(bn, data@, #[trigger] cands[j], cands, formula as int))
                &&& (w_es == cands[w_i] || (!salt_good_table(
                    bn,
                    cands[w_i],
                    data@,
                    xheader_cnt(bn, cands[w_i], data@, w_off),
                ) && (exists|t: int|
                    0 <= t < cands.len() && cands[t] == w_es && (forall|u: int|
                        0 <= u < t ==> !salt_good_table(
                            bn,
                            #[trigger] cands[u],
                            data@,
                            xheader_cnt(bn, cands[w_i], data@, w_off),
                        )))))
            }),
            found is Some ==> ({
                let ents = (found->0).0@;
                let end = (found->0).1 as int;
                &&& is_salt_candidate(w_hs, cli, salts)
                &&& is_salt_candidate(w_es, cli, salts)
                &&& is_header_candidate(w_off, formula as int)
                &&& xheader_ok(bn, w_hs, data@, w_off)
                &&& table_search_ok(
                    bn,
                    w_es,
                    data@,
                    xheader_cnt(bn, w_hs, data@, w_off),
                    false,
                    views_of(ents),
                    end,
                )
                &&& (forall|k: int|
                    0 <= k < views_of(ents).len() ==> entry_ok(#[trigger] views_of(ents)[k]))
                &&& end <= data@.len()
                &&& (forall|k: int|
                    0 <= k < ents.len() ==> (#[trigger] ents[k]).key@.len() == 16
                        && ents[k].name@.len() > 0)
            }),
        decreases nk - hi + (if found.is_none() {
            1int
        } else {
            0int
        }),
    {
        let hs = &keys[hi];
        match probe_offsets(name.as_str(), hs, &keys, &offs, data) {
            Some(quad) => {
                let (ents, end, es_g, off_g) = quad;
                proof {
                    w_hs = keys@[hi as int]@;
                    w_es = es_g@;
                    w_off = off_g@;
                    if es_g@ == hs@ {
                        assert(is_salt_candidate(w_es, cli, salts));
                    } else {
                        let j = choose|j: int|
                            0 <= j < keys@.len() && (#[trigger] keys@[j])@ == es_g@;
                        assert(is_salt_candidate(w_es, cli, salts));
                    }
                    let oi = choose|oi: int|
                        0 <= oi < offs@.len() && (#[trigger] offs@[oi]) as int == off_g@;
                    assert(is_header_candidate(w_off, formula as int));
                    w_i = hi as int;
                    let cands = salt_candidates(cli, salts);
                    assert(cands[w_i] == keys@[hi as int]@);
                    assert forall|j: int| 0 <= j < w_i implies xsalt_dead(
                        bn,
                        data@,
                        #[trigger] cands[j],
                        cands,
                        formula as int,
                    ) by {
                        lemma_xsalt_dead_views(bn, data@, keys@, offs@, formula as int, j);
                        assert(string_views(keys@)[j] == cands[j]);
                    }
                    if w_es != w_hs {
                        let t0 = choose|t: int|
                            0 <= t < keys@.len() && (#[trigger] keys@[t])@ == w_es && (forall|
                                u: int,
                            |
                                0 <= u < t ==> !salt_good_table(
                                    bn,
                                    (#[trigger] keys@[u])@,
                                    data@,
                                    xheader_cnt(bn, hs@, data@, w_off),
                                ));
                        assert(cands[t0] == w_es);
                        assert forall|u: int| 0 <= u < t0 implies !salt_good_table(
                            bn,
                            #[trigger] cands[u],
                            data@,
                            xheader_cnt(bn, cands[w_i], data@, w_off),
                        ) by {
                            assert(cands[u] == keys@[u]@);
                        }
                    }
                }
                found = Some((ents, end));
            },
            None => {
                proof {
                    reveal(extract_salt_dead);
                    assert(extract_salt_dead(bn, data@, keys@, offs@, hi as int));
                }
                hi = hi + 1;
            },
        }
    }
    proof {
        assert(bn.len() > 0 && bn != seq!['.', '.']);
        assert(forall|i: int|
            0 <= i < filters_cli@.len() ==> regex_pattern_ok(#[trigger] filters_cli@[i]@));
        assert(!(cli is None && salts.len() == 0));
    }
    match found {
        Some(pair) => {
            let (ents, end) = pair;
            let fr = finish_extract(
                data,
                &filters,
                ents,
                end,
                Ghost((w_hs, w_es, w_off)),
                Ghost(cli),
                Ghost(salts),
                Ghost(bn),
                Ghost(formula as int),
                Ghost(string_views(filters_cli@)),
            );
            proof {
                assert(!(fr == Result::<Vec<(String, Vec<u8>)>, CodecError>::Err(
                    CodecError::ParametersExhausted,
                )));
                if fr is Ok {
                    let cands = salt_candidates(cli, salts);
                    let (hs2, es2, off2, views2, end2): (
                        Seq<char>,
                        Seq<char>,
                        int,
                        Seq<EntryV>,
                        int,
                    ) = choose|hs2: Seq<char>, es2: Seq<char>, off2: int, views2: Seq<EntryV>, end2: int|
                        {
                            &&& hs2 == w_hs
                            &&& es2 == w_es
                            &&& off2 == w_off
                            &&& is_salt_candidate(hs2, cli, salts)
                            &&& is_salt_candidate(es2, cli, salts)
                            &&& is_header_candidate(off2, formula as int)
                            &&& xheader_ok(bn, hs2, data@, off2)
                            &&& #[trigger] table_search_ok(
                                bn,
                                es2,
                                data@,
                                xheader_cnt(bn, hs2, data@, off2),
                                false,
                                views2,
                                end2,
                            )
                            &&& (forall|k: int|
                                0 <= k < views2.len() ==> entry_ok(#[trigger] views2[k]))
                            &&& extract_all(data@, align1024(end2), views2, string_views(
                                filters_cli@,
                            )) == Result::<Seq<(Seq<char>, Seq<u8>)>, CodecError>::Ok(
                                out_views((fr->Ok_0)@),
                            )
                        };
                    assert(cands[w_i] == hs2);
                    assert(table_search_ok(
                        bn,
                        es2,
                        data@,
                        xheader_cnt(bn, cands[w_i], data@, off2),
                        false,
                        views2,
                        end2,
                    ));
                }
            }
            fr
        },
        None => {
            proof {
                if search_combo(bn, data@, formula as int, cli, salts) {
                    let (hs, off, es): (Seq<char>, int, Seq<char>) = choose|
                        hs: Seq<char>,
                        off: int,
                        es: Seq<char>,
                    |
                        {
                            &&& #[trigger] is_salt_candidate(hs, cli, salts)
                            &&& #[trigger] is_salt_candidate(es, cli, salts)
                            &&& #[trigger] is_header_candidate(off, formula as int)
                            &&& xheader_ok(bn, hs, data@, off)
                            &&& salt_good_table(bn, es, data@, xheader_cnt(bn, hs, data@, off))
                        };
                    let j = choose|j: int| 0 <= j < keys@.len() && (#[trigger] keys@[j])@ == hs;
                    let t = choose|t: int| 0 <= t < keys@.len() && (#[trigger] keys@[t])@ == es;
                    lemma_header_candidate_range(off, formula as int);
                    let ou: u64 = off as u64;
                    assert(is_header_candidate(ou as int, formula as int));
                    assert(offs@.contains(ou));
                    let oi = choose|oi: int| 0 <= oi < offs@.len() && offs@[oi] == ou;
                    reveal(extract_salt_dead);
                    assert(extract_salt_dead(bn, data@, keys@, offs@, j));
                    assert(!xheader_ok(bn, keys@[j]@, data@, (offs@[oi]) as int)
                        || !salt_good_table(
                        bn,
                        keys@[t]@,
                        data@,
                        xheader_cnt(bn, keys@[j]@, data@, offs@[oi] as int),
                    ));
                    assert(false);
                }
            }
            Err(CodecError::ParametersExhausted)
        },
    }
}

/// Extraction fails only as a short read or a failed inflate.
proof fn lemma_extract_all_errors(
    data: Seq<u8>,
    cstart: int,
    es: Seq<EntryV>,
    pats: Seq<Seq<char>>,
)
    ensures
        extract_all(data, cstart, es, pats) is Err ==> (extract_all(
            data,
            cstart,
            es,
            pats,
        )->Err_0 == CodecError::IoShort || extract_all(data, cstart, es, pats)->Err_0
            == CodecError::InflateFailed),
    decreases es.len(),
{
    if es.len() > 0 {
        lemma_extract_all_errors(data, cstart, es.skip(1), pats);
    }
}

/// Extracts the filtered entries of a found table and packages the search
/// witness for the caller's contract.
#[verifier::rlimit(100)]
fn finish_extract(
    data: &[u8],
    filters: &Vec<NameFilter>,
    ents: Vec<FileEntry>,
    end: u64,
    w: Ghost<(Seq<char>, Seq<char>, int)>,
    cli: Ghost<Option<Seq<char>>>,
    salts: Ghost<Seq<Seq<char>>>,
    bn: Ghost<Seq<char>>,
    formula: Ghost<int>,
    pats: Ghost<Seq<Seq<char>>>,
) -> (r: Result<Vec<(String, Vec<u8>)>, CodecError>)
    requires
        data@.len() + 8500 <= usize::MAX,
        patterns_of(filters@) == pats@,
        is_salt_candidate(w@.0, cli@, salts@),
        is_salt_candidate(w@.1, cli@, salts@),
        is_header_candidate(w@.2, formula@),
        xheader_ok(bn@, w@.0, data@, w@.2),
        table_search_ok(
            bn@,
            w@.1,
            data@,
            xheader_cnt(bn@, w@.0, data@, w@.2),
            false,
            views_of(ents@),
            end as int,
        ),
        forall|k: int| 0 <= k < views_of(ents@).len() ==> entry_ok(#[trigger] views_of(ents@)[k]),
        end <= data@.len(),
        forall|k: int|
            0 <= k < ents@.len() ==> (#[trigger] ents@[k]).key@.len() == 16 && ents@[k].name@.len()
                > 0,
    ensures
        r is Ok ==> (exists|hs2: Seq<char>, es2: Seq<char>, off2: int, views2: Seq<EntryV>, end2: int|
            {
                &&& hs2 == w@.0
                &&& es2 == w@.1
                &&& off2 == w@.2
                &&& is_salt_candidate(hs2, cli@, salts@)
                &&& is_salt_candidate(es2, cli@, salts@)
                &&& is_header_candidate(off2, formula@)
                &&& xheader_ok(bn@, hs2, data@, off2)
                &&& #[trigger] table_search_ok(
                    bn@,
                    es2,
                    data@,
                    xheader_cnt(bn@, hs2, data@, off2),
                    false,
                    views2,
                    end2,
                )
                &&& (forall|k: int| 0 <= k < views2.len() ==> entry_ok(#[trigger] views2[k]))
                &&& extract_all(data@, align1024(end2), views2, pats@) == Result::<
                    Seq<(Seq<char>, Seq<u8>)>,
                    CodecError,
                >::Ok(out_views(r->Ok_0@))
            }),
        r is Err ==> (exists|hs2: Seq<char>, es2: Seq<char>, off2: int, views2: Seq<EntryV>, end2: int|
            {
                &&& is_salt_candidate(hs2, cli@, salts@)
                &&& is_salt_candidate(es2, cli@, salts@)
                &&& is_header_candidate(off2, formula@)
                &&& xheader_ok(bn@, hs2, data@, off2)
                &&& #[trigger] table_search_ok(
                    bn@,
                    es2,
                    data@,
                    xheader_cnt(bn@, hs2, data@, off2),
                    false,
                    views2,
                    end2,
                )
                &&& (forall|k: int| 0 <= k < views2.len() ==> entry_ok(#[trigger] views2[k]))
                &&& extract_all(data@, align1024(end2), views2, pats@) == Result::<
                    Seq<(Seq<char>, Seq<u8>)>,
                    CodecError,
                >::Err(r->Err_0)
            }),
        r is Err ==> (r->Err_0 == CodecError::IoShort || r->Err_0 == CodecError::InflateFailed),
{
    let cstart = payload_region_start(end);
    proof {
        assert(cstart == align1024(end as int));
    }
    match extract_entries(data, cstart, &ents, &filters) {
        Ok(out) => {
            proof {
                assert(extract_all(data@, align1024(end as int), views_of(ents@), pats@)
                    == Result::<Seq<(Seq<char>, Seq<u8>)>, CodecError>::Ok(out_views(out@)));
                assert(table_search_ok(
                    bn@,
                    w@.1,
                    data@,
                    xheader_cnt(bn@, w@.0, data@, w@.2),
                    false,
                    views_of(ents@),
                    end as int,
                ));
            }
            Ok(out)
        },
        Err(e) => {
            proof {
                lemma_extract_all_errors(data@, align1024(end as int), views_of(ents@), pats@);
                assert(extract_all(data@, align1024(end as int), views_of(ents@), pats@)
                    == Result::<Seq<(Seq<char>, Seq<u8>)>, CodecError>::Err(e));
                assert(table_search_ok(
                    bn@,
                    w@.1,
                    data@,
                    xheader_cnt(bn@, w@.0, data@, w@.2),
                    false,
                    views_of(ents@),
                    end as int,
                ));
            }
            Err(e)
        },
    }
}

} // verus!
