//! Listing the names held in an archive, with a direct salt or a salt
//! search.

use vstd::prelude::*;

verus! {

use crate::common::FileEntry;
use crate::common::FileHeader;
use crate::common::entry_ok;
use crate::common::get_final_file_name;
use crate::common::header_ok;
use crate::common::header_plain;
use crate::common::parsed_header;
use crate::common::read_entries;
use crate::common::read_header;
use crate::common::spec_basename;
use crate::common::table_search_none;
use crate::common::table_search_ok;
use crate::common::validate_entries;
use crate::common::validate_header;
use crate::common::views_of;
use crate::common::EntryV;
use crate::encryption::base_units;
use crate::encryption::spec_header_offset;
use crate::errors::CodecError;
use crate::salts::build_salt_candidates;
use crate::salts::salt_candidates;
use crate::salts::is_salt_candidate;
use crate::salts::opt_salt_view;
use crate::salts::string_views;

/// The names of a sequence of entry values.
pub open spec fn names_of(es: Seq<EntryV>) -> Seq<Seq<char>> {
    es.map_values(|e: EntryV| e.name)
}

/// Collects the entry names, one listing line per entry, in table order.
pub fn perform_listing(entries: &Vec<FileEntry>) -> (r: Vec<String>)
    ensures
        r@.len() == entries@.len(),
        forall|i: int| 0 <= i < entries@.len() ==> r@[i]@ == (#[trigger] entries@[i]).name@,
{
    let n = entries.len();
    let mut out: Vec<String> = Vec::new();
    let mut i: usize = 0;
    while i < n
        invariant
            n == entries@.len(),
            i <= n,
            out@.len() == i,
            forall|j: int| 0 <= j < i ==> out@[j]@ == (#[trigger] entries@[j]).name@,
        decreases n - i,
    {
        out.push(entries[i].name.clone());
        i = i + 1;
    }
    out
}

/// Lists an archive with one directly supplied salt: header at the formula
/// offset, checksum and version gates, then the entry-table search under
/// the same salt.
pub fn run_list(data: &[u8], fname: &str, skey: &str) -> (r: Result<Vec<String>, CodecError>)
    requires
        data@.len() + 8500 <= usize::MAX,
    ensures
        spec_basename(fname@).len() == 0 || spec_basename(fname@) == seq!['.', '.'] ==> r
            == Result::<Vec<String>, CodecError>::Err(CodecError::InvalidPath),
        ({
            let name = spec_basename(fname@);
            let hoff = spec_header_offset(base_units(name));
            let hp = header_plain(name, skey@, data@, hoff);
            let h = parsed_header(hp);
            &&& (r is Ok ==> name.len() > 0 && hp.len() >= 9 && header_ok(h) && h.version == 2
                && (exists|views: Seq<EntryV>, end: int|
                {
                    &&& table_search_ok(name, skey@, data@, h.file_cnt as nat, false, views, end)
                    &&& (forall|k: int| 0 <= k < views.len() ==> entry_ok(#[trigger] views[k]))
                    &&& r->Ok_0@.map_values(|s: String| s@) == names_of(views)
                }))
            &&& (name.len() > 0 && name != seq!['.', '.'] ==> {
                &&& (hoff > data@.len() ==> r == Result::<Vec<String>, CodecError>::Err(
                    CodecError::IoSeek,
                ))
                &&& (hoff <= data@.len() && hp.len() < 9 ==> r == Result::<
                    Vec<String>,
                    CodecError,
                >::Err(CodecError::IoShort))
                &&& (hoff <= data@.len() && hp.len() >= 9 && !header_ok(h) ==> r == Result::<
                    Vec<String>,
                    CodecError,
                >::Err(CodecError::HeaderChecksum))
                &&& (hoff <= data@.len() && hp.len() >= 9 && header_ok(h) && h.version != 2 ==> r
                    == Result::<Vec<String>, CodecError>::Err(CodecError::VersionUnsupported))
                &&& (hoff <= data@.len() && hp.len() >= 9 && header_ok(h) && h.version == 2
                    && table_search_none(name, skey@, data@, h.file_cnt as nat, false) ==> r
                    == Result::<Vec<String>, CodecError>::Err(CodecError::ParametersExhausted))
                &&& (hoff <= data@.len() && hp.len() >= 9 && header_ok(h) && h.version == 2
                    ==> (forall|views: Seq<EntryV>, end: int|
                    #[trigger] table_search_ok(
                        name,
                        skey@,
                        data@,
                        h.file_cnt as nat,
                        false,
                        views,
                        end,
                    ) ==> {
                        &&& ((forall|k: int| 0 <= k < views.len() ==> entry_ok(#[trigger] views[k]))
                            ==> r is Ok && r->Ok_0@.map_values(|s: String| s@) == names_of(views))
                        &&& (!(forall|k: int|
                            0 <= k < views.len() ==> entry_ok(#[trigger] views[k])) ==> r
                            == Result::<Vec<String>, CodecError>::Err(CodecError::EntryChecksum))
                    }))
            })
        }),
{
    let name = match get_final_file_name(fname) {
        Ok(s) => s,
        Err(e) => {
            return Err(e);
        },
    };
    let hoff = crate::encryption::gen_header_offset(name.as_str());
    let header: FileHeader = match read_header(name.as_str(), skey, data, hoff as u64) {
        Ok(h) => h,
        Err(e) => {
            return Err(e);
        },
    };
    match validate_header(&header) {
        Ok(_) => {},
        Err(e) => {
            return Err(e);
        },
    }
    if header.version != 2 {
        return Err(CodecError::VersionUnsupported);
    }
    let (entries, table_end) = match read_entries(name.as_str(), &header, skey, data, false) {
        Ok(p) => p,
        Err(e) => {
            proof {
                lemma_search_none_excludes(name@, skey@, data@, header.file_cnt as nat, false);
            }
            return Err(e);
        },
    };
    match validate_entries(&entries) {
        Ok(_) => {},
        Err(e) => {
            proof {
                assert forall|views: Seq<EntryV>, end: int|
                    #[trigger] table_search_ok(
                        name@,
                        skey@,
                        data@,
                        header.file_cnt as nat,
                        false,
                        views,
                        end,
                    ) implies !(forall|k: int|
                    0 <= k < views.len() ==> entry_ok(#[trigger] views[k])) by {
                    lemma_table_search_unique(
                        name@,
                        skey@,
                        data@,
                        header.file_cnt as nat,
                        false,
                        views,
                        end,
                        views_of(entries@),
                        table_end as int,
                    );
                    let i = choose|i: int|
                        0 <= i < entries@.len() && !entry_ok(#[trigger] entries@[i]@) && (forall|
                            j: int,
                        | 0 <= j < i ==> entry_ok(#[trigger] entries@[j]@));
                    assert(views[i] == entries@[i]@);
                }
            }
            return Err(e);
        },
    }
    let listing = perform_listing(&entries);
    proof {
        assert(listing@.map_values(|s: String| s@) =~= names_of(views_of(entries@)));
        assert forall|views: Seq<EntryV>, end: int|
            #[trigger] table_search_ok(
                name@,
                skey@,
                data@,
                header.file_cnt as nat,
                false,
                views,
                end,
            ) implies views == views_of(entries@) by {
            lemma_table_search_unique(
                name@,
                skey@,
                data@,
                header.file_cnt as nat,
                false,
                views,
                end,
                views_of(entries@),
                table_end as int,
            );
        }
    }
    Ok(listing)
}

/// Whether a salt opens the header at the formula offset: enough plaintext
/// and a matching checksum.  The listing search applies no sanity gates.
pub open spec fn list_header_ok(name: Seq<char>, hs: Seq<char>, data: Seq<u8>) -> bool {
    let hoff = spec_header_offset(base_units(name));
    let hp = header_plain(name, hs, data, hoff);
    hoff <= data.len() && hp.len() >= 9 && header_ok(parsed_header(hp))
}

/// The entry count the header names under a salt.
pub open spec fn list_header_cnt(name: Seq<char>, hs: Seq<char>, data: Seq<u8>) -> nat {
    parsed_header(header_plain(name, hs, data, spec_header_offset(base_units(name)))).file_cnt as nat
}

/// Whether an entries salt yields a fully checksum-valid table (in
/// heuristic offset mode).
pub open spec fn salt_good_table(name: Seq<char>, es: Seq<char>, data: Seq<u8>, cnt: nat) -> bool {
    exists|views: Seq<EntryV>, end: int|
        #[trigger] table_search_ok(name, es, data, cnt, false, views, end) && (forall|k: int|
            0 <= k < views.len() ==> entry_ok(#[trigger] views[k]))
}

/// A failed table search admits no winning table at all.
pub proof fn lemma_search_none_excludes(
    name: Seq<char>,
    es: Seq<char>,
    data: Seq<u8>,
    cnt: nat,
    only: bool,
)
    requires
        table_search_none(name, es, data, cnt, only),
    ensures
        forall|views: Seq<EntryV>, end: int|
            !(#[trigger] table_search_ok(name, es, data, cnt, only, views, end)),
{
    let cands = crate::common::entry_offset_candidates(
        spec_header_offset(base_units(name)),
        crate::encryption::spec_entries_offset(base_units(name)),
        only,
    );
    assert forall|views: Seq<EntryV>, end: int|
        !(#[trigger] table_search_ok(name, es, data, cnt, only, views, end)) by {
        if table_search_ok(name, es, data, cnt, only, views, end) {
            let i = choose|i: int|
                {
                    let t = crate::common::table_at(name, es, data, #[trigger] cands[i], cnt);
                    &&& 0 <= i < cands.len()
                    &&& t is Some
                    &&& (forall|j: int|
                        0 <= j < i ==> crate::common::table_at(
                            name,
                            es,
                            data,
                            #[trigger] cands[j],
                            cnt,
                        ) is None)
                    &&& views == t->Some_0.0
                    &&& end == cands[i] + 4 * ((t->Some_0.1 + 3) / 4)
                };
            assert(crate::common::table_at(name, es, data, cands[i], cnt) is None);
            assert(false);
        }
    }
}

/// The first-winning table of a search is unique.
pub proof fn lemma_table_search_unique(
    name: Seq<char>,
    es: Seq<char>,
    data: Seq<u8>,
    cnt: nat,
    only: bool,
    v1: Seq<EntryV>,
    e1: int,
    v2: Seq<EntryV>,
    e2: int,
)
    requires
        table_search_ok(name, es, data, cnt, only, v1, e1),
        table_search_ok(name, es, data, cnt, only, v2, e2),
    ensures
        v1 == v2,
        e1 == e2,
{
    let cands = crate::common::entry_offset_candidates(
        spec_header_offset(base_units(name)),
        crate::encryption::spec_entries_offset(base_units(name)),
        only,
    );
    let i1 = choose|i: int|
        {
            let t = crate::common::table_at(name, es, data, #[trigger] cands[i], cnt);
            &&& 0 <= i < cands.len()
            &&& t is Some
            &&& (forall|j: int|
                0 <= j < i ==> crate::common::table_at(name, es, data, #[trigger] cands[j], cnt)
                    is None)
            &&& v1 == t->Some_0.0
            &&& e1 == cands[i] + 4 * ((t->Some_0.1 + 3) / 4)
        };
    let i2 = choose|i: int|
        {
            let t = crate::common::table_at(name, es, data, #[trigger] cands[i], cnt);
            &&& 0 <= i < cands.len()
            &&& t is Some
            &&& (forall|j: int|
                0 <= j < i ==> crate::common::table_at(name, es, data, #[trigger] cands[j], cnt)
                    is None)
            &&& v2 == t->Some_0.0
            &&& e2 == cands[i] + 4 * ((t->Some_0.1 + 3) / 4)
        };
    if i1 < i2 {
        assert(crate::common::table_at(name, es, data, cands[i1], cnt) is None);
        assert(false);
    }
    if i2 < i1 {
        assert(crate::common::table_at(name, es, data, cands[i2], cnt) is None);
        assert(false);
    }
}

/// A failed table search admits no good table.
pub proof fn lemma_no_good_table_none(name: Seq<char>, es: Seq<char>, data: Seq<u8>, cnt: nat)
    requires
        table_search_none(name, es, data, cnt, false),
    ensures
        !salt_good_table(name, es, data, cnt),
{
    if salt_good_table(name, es, data, cnt) {
        let (views, end): (Seq<EntryV>, int) = choose|views: Seq<EntryV>, end: int|
            #[trigger] table_search_ok(name, es, data, cnt, false, views, end) && (forall|k: int|
                0 <= k < views.len() ==> entry_ok(#[trigger] views[k]));
        let cands = crate::common::entry_offset_candidates(
            spec_header_offset(base_units(name)),
            crate::encryption::spec_entries_offset(base_units(name)),
            false,
        );
        let i = choose|i: int|
            {
                let t = crate::common::table_at(name, es, data, #[trigger] cands[i], cnt);
                &&& 0 <= i < cands.len()
                &&& t is Some
                &&& (forall|j: int|
                    0 <= j < i ==> crate::common::table_at(
                        name,
                        es,
                        data,
                        #[trigger] cands[j],
                        cnt,
                    ) is None)
                &&& views == t->Some_0.0
                &&& end == cands[i] + 4 * ((t->Some_0.1 + 3) / 4)
            };
        assert(crate::common::table_at(name, es, data, cands[i], cnt) is None);
        assert(false);
    }
}

/// A search whose first-winning table holds a bad checksum admits no good
/// table.
pub proof fn lemma_no_good_table_bad_entries(
    name: Seq<char>,
    es: Seq<char>,
    data: Seq<u8>,
    cnt: nat,
    views: Seq<EntryV>,
    end: int,
)
    requires
        table_search_ok(name, es, data, cnt, false, views, end),
        !(forall|k: int| 0 <= k < views.len() ==> entry_ok(#[trigger] views[k])),
    ensures
        !salt_good_table(name, es, data, cnt),
{
    if salt_good_table(name, es, data, cnt) {
        let (v2, e2): (Seq<EntryV>, int) = choose|v2: Seq<EntryV>, e2: int|
            #[trigger] table_search_ok(name, es, data, cnt, false, v2, e2) && (forall|k: int|
                0 <= k < v2.len() ==> entry_ok(#[trigger] v2[k]));
        lemma_table_search_unique(name, es, data, cnt, false, views, end, v2, e2);
        assert(false);
    }
}

/// Tries one entries salt for a listing: reads and checksum-validates the
/// table, returning the listing on success.
fn try_salt_for_listing(name: &str, header: &FileHeader, es: &str, data: &[u8]) -> (r: Option<
    Vec<String>,
>)
    requires
        name@.len() > 0,
        data@.len() + 8500 <= usize::MAX,
    ensures
        r is Some ==> (exists|views: Seq<EntryV>, end: int|
            #[trigger] table_search_ok(
                name@,
                es@,
                data@,
                header.file_cnt as nat,
                false,
                views,
                end,
            ) && (forall|k: int| 0 <= k < views.len() ==> entry_ok(#[trigger] views[k]))
                && string_views(r->0@) == names_of(views)),
        r is None ==> !salt_good_table(name@, es@, data@, header.file_cnt as nat),
{
    let (ents, table_end) = match read_entries(name, header, es, data, false) {
        Ok(p) => p,
        Err(_) => {
            proof {
                lemma_no_good_table_none(name@, es@, data@, header.file_cnt as nat);
            }
            return None;
        },
    };
    if validate_entries(&ents).is_err() {
        proof {
            assert(!(forall|k: int|
                0 <= k < views_of(ents@).len() ==> entry_ok(#[trigger] views_of(ents@)[k]))) by {
                if forall|k: int|
                    0 <= k < views_of(ents@).len() ==> entry_ok(#[trigger] views_of(ents@)[k]) {
                    assert forall|i: int| 0 <= i < ents@.len() implies entry_ok(
                        #[trigger] ents@[i]@,
                    ) by {
                        assert(views_of(ents@)[i] == ents@[i]@);
                        assert(entry_ok(views_of(ents@)[i]));
                    }
                }
            }
            lemma_no_good_table_bad_entries(
                name@,
                es@,
                data@,
                header.file_cnt as nat,
                views_of(ents@),
                table_end as int,
            );
        }
        return None;
    }
    let listing = perform_listing(&ents);
    proof {
        assert(string_views(listing@) =~= names_of(views_of(ents@)));
        assert forall|k: int| 0 <= k < views_of(ents@).len() implies entry_ok(
            #[trigger] views_of(ents@)[k],
        ) by {
            assert(views_of(ents@)[k] == ents@[k]@);
        }
        assert(table_search_ok(
            name@,
            es@,
            data@,
            header.file_cnt as nat,
            false,
            views_of(ents@),
            table_end as int,
        ));
    }
    Some(listing)
}

/// Packages the two-salt witness of a successful listing search.
proof fn lemma_search_witness(
    bn: Seq<char>,
    hs: Seq<char>,
    es: Seq<char>,
    data: Seq<u8>,
    cli: Option<Seq<char>>,
    salts: Seq<Seq<char>>,
    out: Seq<Seq<char>>,
)
    requires
        is_salt_candidate(hs, cli, salts),
        is_salt_candidate(es, cli, salts),
        list_header_ok(bn, hs, data),
        exists|views: Seq<EntryV>, end: int|
            #[trigger] table_search_ok(
                bn,
                es,
                data,
                list_header_cnt(bn, hs, data),
                false,
                views,
                end,
            ) && (forall|k: int| 0 <= k < views.len() ==> entry_ok(#[trigger] views[k])) && out
                == names_of(views),
    ensures
        exists|hs2: Seq<char>, es2: Seq<char>, views: Seq<EntryV>, end: int|
            {
                &&& is_salt_candidate(hs2, cli, salts)
                &&& is_salt_candidate(es2, cli, salts)
                &&& list_header_ok(bn, hs2, data)
                &&& #[trigger] table_search_ok(
                    bn,
                    es2,
                    data,
                    list_header_cnt(bn, hs2, data),
                    false,
                    views,
                    end,
                )
                &&& (forall|k: int| 0 <= k < views.len() ==> entry_ok(#[trigger] views[k]))
                &&& out == names_of(views)
            },
{
    let (views, end): (Seq<EntryV>, int) = choose|views: Seq<EntryV>, end: int|
        #[trigger] table_search_ok(
            bn,
            es,
            data,
            list_header_cnt(bn, hs, data),
            false,
            views,
            end,
        ) && (forall|k: int| 0 <= k < views.len() ==> entry_ok(#[trigger] views[k])) && out
            == names_of(views);
    assert(table_search_ok(bn, es, data, list_header_cnt(bn, hs, data), false, views, end));
}

/// Tries the header's own salt and then every candidate salt on the entry
/// table, returning the first fully valid listing.
fn search_entries_salts(
    name: &str,
    header: &FileHeader,
    hs: &String,
    keys: &Vec<String>,
    data: &[u8],
) -> (r: Option<Vec<String>>)
    requires
        name@.len() > 0,
        data@.len() + 8500 <= usize::MAX,
    ensures
        r is Some ==> (exists|es: Seq<char>, views: Seq<EntryV>, end: int|
            {
                &&& (es == hs@ || (!salt_good_table(name@, hs@, data@, header.file_cnt as nat)
                    && (exists|t: int|
                    0 <= t < keys@.len() && (#[trigger] keys@[t])@ == es && (forall|u: int|
                        0 <= u < t ==> !salt_good_table(
                            name@,
                            (#[trigger] keys@[u])@,
                            data@,
                            header.file_cnt as nat,
                        )))))
                &&& #[trigger] table_search_ok(
                    name@,
                    es,
                    data@,
                    header.file_cnt as nat,
                    false,
                    views,
                    end,
                )
                &&& (forall|k: int| 0 <= k < views.len() ==> entry_ok(#[trigger] views[k]))
                &&& string_views((r->0)@) == names_of(views)
            }),
        r is None ==> !salt_good_table(name@, hs@, data@, header.file_cnt as nat) && (forall|
            j: int,
        |
            0 <= j < keys@.len() ==> !salt_good_table(
                name@,
                (#[trigger] keys@[j])@,
                data@,
                header.file_cnt as nat,
            )),
{
    let ghost cnt = header.file_cnt as nat;
    match try_salt_for_listing(name, header, hs.as_str(), data) {
        Some(listing) => {
            proof {
                let (views, end): (Seq<EntryV>, int) = choose|views: Seq<EntryV>, end: int|
                    #[trigger] table_search_ok(name@, hs@, data@, cnt, false, views, end) && (
                forall|k: int| 0 <= k < views.len() ==> entry_ok(#[trigger] views[k]))
                    && string_views(listing@) == names_of(views);
                assert(table_search_ok(name@, hs@, data@, cnt, false, views, end));
            }
            return Some(listing);
        },
        None => {},
    }
    let nk = keys.len();
    let mut idx: usize = 0;
    while idx < nk
        invariant
            nk == keys@.len(),
            idx <= nk,
            name@.len() > 0,
            data@.len() + 8500 <= usize::MAX,
            cnt == header.file_cnt as nat,
            !salt_good_table(name@, hs@, data@, cnt),
            forall|j: int|
                0 <= j < idx ==> !salt_good_table(name@, (#[trigger] keys@[j])@, data@, cnt),
        decreases nk - idx,
    {
        let es = &keys[idx];
        match try_salt_for_listing(name, header, es.as_str(), data) {
            Some(listing) => {
                proof {
                    assert(keys@[idx as int]@ == es@);
                    let (views, end): (Seq<EntryV>, int) = choose|views: Seq<EntryV>, end: int|
                        #[trigger] table_search_ok(name@, es@, data@, cnt, false, views, end) && (
                    forall|k: int| 0 <= k < views.len() ==> entry_ok(#[trigger] views[k]))
                        && string_views(listing@) == names_of(views);
                    assert(table_search_ok(name@, es@, data@, cnt, false, views, end));
                    assert(0 <= idx < keys@.len() && (keys@[idx as int])@ == es@ && (forall|
                        u: int,
                    |
                        0 <= u < idx ==> !salt_good_table(
                            name@,
                            (#[trigger] keys@[u])@,
                            data@,
                            cnt,
                        )));
                }
                return Some(listing);
            },
            None => {},
        }
        idx = idx + 1;
    }
    None
}

/// One header salt is dead: it opens no header, or no candidate salt
/// yields a good table under its header.
#[verifier::opaque]
pub open spec fn header_salt_dead(bn: Seq<char>, data: Seq<u8>, keys: Seq<String>, j: int) -> bool {
    !list_header_ok(bn, keys[j]@, data) || (forall|t: int|
        0 <= t < keys.len() ==> !salt_good_table(
            bn,
            (#[trigger] keys[t])@,
            data,
            list_header_cnt(bn, keys[j]@, data),
        ))
}

/// A candidate salt is dead for the listing search: it opens no valid
/// header, or no candidate salt yields a fully valid table under its
/// header.
pub open spec fn list_salt_dead(
    bn: Seq<char>,
    data: Seq<u8>,
    s: Seq<char>,
    all: Seq<Seq<char>>,
) -> bool {
    !list_header_ok(bn, s, data) || (forall|t: int|
        0 <= t < all.len() ==> !salt_good_table(
            bn,
            #[trigger] all[t],
            data,
            list_header_cnt(bn, s, data),
        ))
}

/// The key-vector dead predicate carries over to its character-level view.
proof fn lemma_salt_dead_views(bn: Seq<char>, data: Seq<u8>, keys: Seq<String>, j: int)
    requires
        0 <= j < keys.len(),
        header_salt_dead(bn, data, keys, j),
    ensures
        list_salt_dead(bn, data, string_views(keys)[j], string_views(keys)),
{
    reveal(header_salt_dead);
    assert(string_views(keys)[j] == keys[j]@);
    if list_header_ok(bn, keys[j]@, data) {
        assert forall|t: int| 0 <= t < string_views(keys).len() implies !salt_good_table(
            bn,
            #[trigger] string_views(keys)[t],
            data,
            list_header_cnt(bn, keys[j]@, data),
        ) by {
            assert(string_views(keys)[t] == keys[t]@);
        }
    }
}

/// Probes one header salt: header at the formula offset, checksum gate,
/// then every entries salt on the table.
fn probe_header_salt(
    name: &str,
    hs: &String,
    keys: &Vec<String>,
    data: &[u8],
    hoff: u64,
) -> (r: Option<Vec<String>>)
    requires
        name@.len() > 0,
        data@.len() + 8500 <= usize::MAX,
        hoff == spec_header_offset(base_units(name@)),
    ensures
        r is Some ==> (exists|es: Seq<char>, views: Seq<EntryV>, end: int|
            {
                &&& (es == hs@ || (!salt_good_table(
                    name@,
                    hs@,
                    data@,
                    list_header_cnt(name@, hs@, data@),
                ) && (exists|t: int|
                    0 <= t < keys@.len() && (#[trigger] keys@[t])@ == es && (forall|u: int|
                        0 <= u < t ==> !salt_good_table(
                            name@,
                            (#[trigger] keys@[u])@,
                            data@,
                            list_header_cnt(name@, hs@, data@),
                        )))))
                &&& list_header_ok(name@, hs@, data@)
                &&& #[trigger] table_search_ok(
                    name@,
                    es,
                    data@,
                    list_header_cnt(name@, hs@, data@),
                    false,
                    views,
                    end,
                )
                &&& (forall|k: int| 0 <= k < views.len() ==> entry_ok(#[trigger] views[k]))
                &&& string_views((r->0)@) == names_of(views)
            }),
        r is None ==> (!list_header_ok(name@, hs@, data@) || (!salt_good_table(
            name@,
            hs@,
            data@,
            list_header_cnt(name@, hs@, data@),
        ) && (forall|j: int|
            0 <= j < keys@.len() ==> !salt_good_table(
                name@,
                (#[trigger] keys@[j])@,
                data@,
                list_header_cnt(name@, hs@, data@),
            )))),
{
    let header: FileHeader = match read_header(name, hs.as_str(), data, hoff) {
        Ok(h) => h,
        Err(_) => {
            proof {
                assert(!list_header_ok(name@, hs@, data@));
            }
            return None;
        },
    };
    if validate_header(&header).is_err() {
        proof {
            assert(!list_header_ok(name@, hs@, data@));
        }
        return None;
    }
    proof {
        assert(list_header_ok(name@, hs@, data@));
        assert(header.file_cnt as nat == list_header_cnt(name@, hs@, data@));
    }
    search_entries_salts(name, &header, hs, keys, data)
}

/// Lists an archive by probing candidate salts: the directly supplied one
/// first, then each loaded salt; for each salt that opens the header, every
/// candidate salt is tried on the entry table, the header's own salt first.
/// The first fully checksum-valid table wins, and the contract pins that
/// choice over the canonical candidate list.
#[verifier::rlimit(100)]
pub fn run_list_with_key_search(
    data: &[u8],
    fname: &str,
    cli_skey: &Option<String>,
    loaded_salts: &Vec<String>,
) -> (r: Result<Vec<String>, CodecError>)
    requires
        data@.len() + 8500 <= usize::MAX,
    ensures
        ({
            let cli = opt_salt_view(*cli_skey);
            let salts = string_views(loaded_salts@);
            let bn = spec_basename(fname@);
            &&& (r == Result::<Vec<String>, CodecError>::Err(CodecError::NoSalts) <==> (cli
                is None && salts.len() == 0))
            &&& (r is Err ==> (r->Err_0 == CodecError::NoSalts || r->Err_0
                == CodecError::InvalidPath || r->Err_0 == CodecError::ParametersExhausted))
            &&& (!(cli is None && salts.len() == 0) ==> (r == Result::<
                Vec<String>,
                CodecError,
            >::Err(CodecError::InvalidPath) <==> !(bn.len() > 0 && bn != seq!['.', '.'])))
            &&& (!(cli is None && salts.len() == 0) && bn.len() > 0 && bn != seq!['.', '.'] && (
            exists|hs: Seq<char>, es: Seq<char>|
                #[trigger] is_salt_candidate(hs, cli, salts) && #[trigger] is_salt_candidate(
                    es,
                    cli,
                    salts,
                ) && list_header_ok(bn, hs, data@) && salt_good_table(
                    bn,
                    es,
                    data@,
                    list_header_cnt(bn, hs, data@),
                )) ==> r is Ok)
            &&& (r is Ok ==> ({
                let cands = salt_candidates(cli, salts);
                exists|i: int, es: Seq<char>, views: Seq<EntryV>, end: int|
                    {
                        &&& 0 <= i < cands.len()
                        &&& (forall|j: int|
                            0 <= j < i ==> list_salt_dead(bn, data@, #[trigger] cands[j], cands))
                        &&& is_salt_candidate(es, cli, salts)
                        &&& list_header_ok(bn, cands[i], data@)
                        &&& (es == cands[i] || (!salt_good_table(
                            bn,
                            cands[i],
                            data@,
                            list_header_cnt(bn, cands[i], data@),
                        ) && (exists|t: int|
                            0 <= t < cands.len() && cands[t] == es && (forall|u: int|
                                0 <= u < t ==> !salt_good_table(
                                    bn,
                                    #[trigger] cands[u],
                                    data@,
                                    list_header_cnt(bn, cands[i], data@),
                                )))))
                        &&& #[trigger] table_search_ok(
                            bn,
                            es,
                            data@,
                            list_header_cnt(bn, cands[i], data@),
                            false,
                            views,
                            end,
                        )
                        &&& (forall|k: int| 0 <= k < views.len() ==> entry_ok(#[trigger] views[k]))
                        &&& string_views(r->Ok_0@) == names_of(views)
                    }
            }))
            &&& (r is Ok ==> (exists|hs: Seq<char>, es: Seq<char>, views: Seq<EntryV>, end: int|
                {
                    &&& is_salt_candidate(hs, cli, salts)
                    &&& is_salt_candidate(es, cli, salts)
                    &&& list_header_ok(bn, hs, data@)
                    &&& #[trigger] table_search_ok(
                        bn,
                        es,
                        data@,
                        list_header_cnt(bn, hs, data@),
                        false,
                        views,
                        end,
                    )
                    &&& (forall|k: int| 0 <= k < views.len() ==> entry_ok(#[trigger] views[k]))
                    &&& string_views(r->Ok_0@) == names_of(views)
                }))
            &&& (r == Result::<Vec<String>, CodecError>::Err(CodecError::ParametersExhausted)
                ==> (forall|hs: Seq<char>|
                #[trigger] is_salt_candidate(hs, cli, salts) ==> !list_header_ok(bn, hs, data@)
                    || (forall|es: Seq<char>|
                    #[trigger] is_salt_candidate(es, cli, salts) ==> !salt_good_table(
                        bn,
                        es,
                        data@,
                        list_header_cnt(bn, hs, data@),
                    ))))
        }),
{
    let ghost cli = opt_salt_view(*cli_skey);
    let ghost salts = string_views(loaded_salts@);
    let ghost bn = spec_basename(fname@);
    let keys = build_salt_candidates(cli_skey, loaded_salts);
    if keys.len() == 0 {
        return Err(CodecError::NoSalts);
    }
    let name = match get_final_file_name(fname) {
        Ok(s) => s,
        Err(_) => {
            return Err(CodecError::InvalidPath);
        },
    };
    let hoff = crate::encryption::gen_header_offset(name.as_str());
    let nk = keys.len();
    let mut result: Option<Vec<String>> = None;
    let ghost mut w_i: int = 0;
    let mut hi: usize = 0;
    while hi < nk && result.is_none()
        invariant
            nk == keys@.len(),
            nk > 0,
            hi <= nk,
            data@.len() + 8500 <= usize::MAX,
            name@ == bn,
            bn.len() > 0,
            hoff == spec_header_offset(base_units(bn)),
            cli == opt_salt_view(*cli_skey),
            salts == string_views(loaded_salts@),
            forall|j: int|
                0 <= j < keys@.len() ==> is_salt_candidate((#[trigger] keys@[j])@, cli, salts),
            result is None ==> (forall|j: int|
                0 <= j < hi ==> header_salt_dead(bn, data@, keys@, j)),
            string_views(keys@) == salt_candidates(cli, salts),
            result is Some ==> (exists|
                hs2: Seq<char>,
                es2: Seq<char>,
                views2: Seq<EntryV>,
                end2: int,
            |
                {
                    &&& is_salt_candidate(hs2, cli, salts)
                    &&& is_salt_candidate(es2, cli, salts)
                    &&& list_header_ok(bn, hs2, data@)
                    &&& #[trigger] table_search_ok(
                        bn,
                        es2,
                        data@,
                        list_header_cnt(bn, hs2, data@),
                        false,
                        views2,
                        end2,
                    )
                    &&& (forall|k: int| 0 <= k < views2.len() ==> entry_ok(#[trigger] views2[k]))
                    &&& string_views((result->0)@) == names_of(views2)
                }),
            result is Some ==> ({
                let cands = salt_candidates(cli, salts);
                &&& 0 <= w_i < cands.len()
                &&& (forall|j: int|
                    0 <= j < w_i ==> list_salt_dead(bn, data@, #[trigger] cands[j], cands))
                &&& (exists|es2: Seq<char>, views2: Seq<EntryV>, end2: int|
                    {
                        &&& is_salt_candidate(es2, cli, salts)
                        &&& list_header_ok(bn, cands[w_i], data@)
                        &&& (es2 == cands[w_i] || (!salt_good_table(
                            bn,
                            cands[w_i],
                            data@,
                            list_header_cnt(bn, cands[w_i], data@),
                        ) && (exists|t: int|
                            0 <= t < cands.len() && cands[t] == es2 && (forall|u: int|
                                0 <= u < t ==> !salt_good_table(
                                    bn,
                                    #[trigger] cands[u],
                                    data@,
                                    list_header_cnt(bn, cands[w_i], data@),
                                )))))
                        &&& #[trigger] table_search_ok(
                            bn,
                            es2,
                            data@,
                            list_header_cnt(bn, cands[w_i], data@),
                            false,
                            views2,
                            end2,
                        )
                        &&& (forall|k: int| 0 <= k < views2.len() ==> entry_ok(#[trigger] views2[k]))
                        &&& string_views((result->0)@) == names_of(views2)
                    })
            }),
        decreases nk - hi + (if result.is_none() {
            1int
        } else {
            0int
        }),
    {
        let hs = &keys[hi];
        match probe_header_salt(name.as_str(), hs, &keys, data, hoff as u64) {
            Some(listing) => {
                proof {
                    let (es, views, end): (Seq<char>, Seq<EntryV>, int) = choose|
                        es: Seq<char>,
                        views: Seq<EntryV>,
                        end: int,
                    |
                        {
                            &&& (es == hs@ || (!salt_good_table(
                                bn,
                                hs@,
                                data@,
                                list_header_cnt(bn, hs@, data@),
                            ) && (exists|t: int|
                                0 <= t < keys@.len() && (#[trigger] keys@[t])@ == es && (forall|
                                    u: int,
                                |
                                    0 <= u < t ==> !salt_good_table(
                                        bn,
                                        (#[trigger] keys@[u])@,
                                        data@,
                                        list_header_cnt(bn, hs@, data@),
                                    )))))
                            &&& list_header_ok(bn, hs@, data@)
                            &&& #[trigger] table_search_ok(
                                bn,
                                es,
                                data@,
                                list_header_cnt(bn, hs@, data@),
                                false,
                                views,
                                end,
                            )
                            &&& (forall|k: int|
                                0 <= k < views.len() ==> entry_ok(#[trigger] views[k]))
                            &&& string_views(listing@) == names_of(views)
                        };
                    if es == hs@ {
                        assert(is_salt_candidate(es, cli, salts));
                    } else {
                        let t0 = choose|t: int|
                            0 <= t < keys@.len() && (#[trigger] keys@[t])@ == es && (forall|
                                u: int,
                            |
                                0 <= u < t ==> !salt_good_table(
                                    bn,
                                    (#[trigger] keys@[u])@,
                                    data@,
                                    list_header_cnt(bn, hs@, data@),
                                ));
                        assert(is_salt_candidate(es, cli, salts));
                    }
                    lemma_search_witness(
                        bn,
                        keys@[hi as int]@,
                        es,
                        data@,
                        cli,
                        salts,
                        string_views(listing@),
                    );
                    w_i = hi as int;
                    let cands = salt_candidates(cli, salts);
                    assert(cands[w_i] == keys@[hi as int]@);
                    assert forall|j: int| 0 <= j < w_i implies list_salt_dead(
                        bn,
                        data@,
                        #[trigger] cands[j],
                        cands,
                    ) by {
                        lemma_salt_dead_views(bn, data@, keys@, j);
                        assert(string_views(keys@)[j] == cands[j]);
                    }
                    assert(table_search_ok(
                        bn,
                        es,
                        data@,
                        list_header_cnt(bn, cands[w_i], data@),
                        false,
                        views,
                        end,
                    ));
                    if es != hs@ {
                        let t0 = choose|t: int|
                            0 <= t < keys@.len() && (#[trigger] keys@[t])@ == es && (forall|
                                u: int,
                            |
                                0 <= u < t ==> !salt_good_table(
                                    bn,
                                    (#[trigger] keys@[u])@,
                                    data@,
                                    list_header_cnt(bn, hs@, data@),
                                ));
                        assert(cands[t0] == es);
                        assert forall|u: int| 0 <= u < t0 implies !salt_good_table(
                            bn,
                            #[trigger] cands[u],
                            data@,
                            list_header_cnt(bn, cands[w_i], data@),
                        ) by {
                            assert(cands[u] == keys@[u]@);
                        }
                    }
                }
                result = Some(listing);
            },
            None => {
                proof {
                    reveal(header_salt_dead);
                    assert(header_salt_dead(bn, data@, keys@, hi as int));
                }
                hi = hi + 1;
            },
        }
    }
    match result {
        Some(listing) => {
            proof {
                let cands = salt_candidates(cli, salts);
                let (es2, views2, end2): (Seq<char>, Seq<EntryV>, int) = choose|
                    es2: Seq<char>,
                    views2: Seq<EntryV>,
                    end2: int,
                |
                    {
                        &&& is_salt_candidate(es2, cli, salts)
                        &&& list_header_ok(bn, cands[w_i], data@)
                        &&& (es2 == cands[w_i] || (!salt_good_table(
                            bn,
                            cands[w_i],
                            data@,
                            list_header_cnt(bn, cands[w_i], data@),
                        ) && (exists|t: int|
                            0 <= t < cands.len() && cands[t] == es2 && (forall|u: int|
                                0 <= u < t ==> !salt_good_table(
                                    bn,
                                    #[trigger] cands[u],
                                    data@,
                                    list_header_cnt(bn, cands[w_i], data@),
                                )))))
                        &&& #[trigger] table_search_ok(
                            bn,
                            es2,
                            data@,
                            list_header_cnt(bn, cands[w_i], data@),
                            false,
                            views2,
                            end2,
                        )
                        &&& (forall|k: int| 0 <= k < views2.len() ==> entry_ok(#[trigger] views2[k]))
                        &&& string_views(listing@) == names_of(views2)
                    };
                assert(table_search_ok(
                    bn,
                    es2,
                    data@,
                    list_header_cnt(bn, cands[w_i], data@),
                    false,
                    views2,
                    end2,
                ));
            }
            Ok(listing)
        },
        None => {
            proof {
                assert forall|hs: Seq<char>| #[trigger]
                    is_salt_candidate(hs, cli, salts) implies !list_header_ok(bn, hs, data@) || (
                forall|es: Seq<char>|
                    #[trigger] is_salt_candidate(es, cli, salts) ==> !salt_good_table(
                        bn,
                        es,
                        data@,
                        list_header_cnt(bn, hs, data@),
                    )) by {
                    let j = choose|j: int| 0 <= j < keys@.len() && (#[trigger] keys@[j])@ == hs;
                    reveal(header_salt_dead);
                    assert(header_salt_dead(bn, data@, keys@, j));
                    if list_header_ok(bn, hs, data@) {
                        assert forall|es: Seq<char>| #[trigger]
                            is_salt_candidate(es, cli, salts) implies !salt_good_table(
                            bn,
                            es,
                            data@,
                            list_header_cnt(bn, hs, data@),
                        ) by {
                            let t = choose|t: int|
                                0 <= t < keys@.len() && (#[trigger] keys@[t])@ == es;
                            assert(!salt_good_table(
                                bn,
                                keys@[t]@,
                                data@,
                                list_header_cnt(bn, keys@[j]@, data@),
                            ));
                        }
                    }
                }
            }
            Err(CodecError::ParametersExhausted)
        },
    }
}

} // verus!
