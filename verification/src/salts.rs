//! Parsing a salt list from newline-delimited text.
//!
//! Where the list comes from (a local file, a remote copy) is a front-end
//! concern; this module owns the format: one candidate per line, blank
//! lines and `#`-prefixed lines ignored, surrounding ASCII whitespace
//! trimmed.

use vstd::prelude::*;

verus! {

/// ASCII whitespace, the characters trimmed from a salt line.
pub open spec fn is_ws(c: char) -> bool {
    c == ' ' || c == '\t' || c == '\r' || c == '\n' || c == '\u{b}' || c == '\u{c}'
}

/// The index of the first `'\n'`, or -1 when there is none.
pub open spec fn first_newline(s: Seq<char>) -> int
    decreases s.len(),
{
    if s.len() == 0 {
        -1
    } else if s[0] == '\n' {
        0
    } else {
        let rest = first_newline(s.skip(1));
        if rest < 0 {
            -1
        } else {
            rest + 1
        }
    }
}

/// The first-newline index is always below the length.
proof fn lemma_first_newline_range(s: Seq<char>)
    ensures
        -1 <= first_newline(s) < s.len(),
    decreases s.len(),
{
    if s.len() > 0 && s[0] != '\n' {
        lemma_first_newline_range(s.skip(1));
    }
}

/// When the first `m` characters hold no newline, the first newline is at
/// `m` (if one follows) or absent.
proof fn lemma_first_newline(s: Seq<char>, m: int)
    requires
        0 <= m <= s.len(),
        forall|k: int| 0 <= k < m ==> s[k] != '\n',
        m < s.len() ==> s[m] == '\n',
    ensures
        first_newline(s) == if m == s.len() {
            -1int
        } else {
            m
        },
    decreases m,
{
    if m == 0 {
        if s.len() > 0 {
            assert(s[0] == '\n');
        }
    } else {
        assert(s[0] != '\n');
        lemma_first_newline(s.skip(1), m - 1);
        assert(s.skip(1).len() == s.len() - 1);
    }
}

/// A line with leading and trailing ASCII whitespace removed.
pub open spec fn trim_ws(s: Seq<char>) -> Seq<char>
    decreases s.len(),
{
    if s.len() == 0 {
        s
    } else if is_ws(s[0]) {
        trim_ws(s.skip(1))
    } else if is_ws(s.last()) {
        trim_ws(s.drop_last())
    } else {
        s
    }
}

/// Whether a line contributes a salt: its trimmed form is nonempty and the
/// raw line does not start with `#`.
pub open spec fn line_is_salt(line: Seq<char>) -> bool {
    trim_ws(line).len() > 0 && !(line.len() > 0 && line[0] == '#')
}

/// The salts of a text, line by line: the trimmed forms of the
/// contributing lines, in order.
pub open spec fn salts_of(s: Seq<char>) -> Seq<Seq<char>>
    decreases s.len(),
    via salts_of_decreases
{
    if s.len() == 0 {
        Seq::empty()
    } else {
        let nl = first_newline(s);
        let line = if nl < 0 {
            s
        } else {
            s.take(nl)
        };
        let rest: Seq<char> = if nl < 0 {
            Seq::empty()
        } else {
            s.skip(nl + 1)
        };
        let tail = salts_of(rest);
        if line_is_salt(line) {
            seq![trim_ws(line)] + tail
        } else {
            tail
        }
    }
}

#[via_fn]
proof fn salts_of_decreases(s: Seq<char>) {
    lemma_first_newline_range(s);
}

fn is_ws_exec(c: char) -> (r: bool)
    ensures
        r == is_ws(c),
{
    c == ' ' || c == '\t' || c == '\r' || c == '\n' || c == '\u{b}' || c == '\u{c}'
}

/// Trims ASCII whitespace from both ends of a character vector.
fn trim_chars(line: &Vec<char>) -> (r: Vec<char>)
    ensures
        r@ == trim_ws(line@),
{
    let mut lo: usize = 0;
    let mut hi: usize = line.len();
    let mut settled = false;
    proof {
        assert(line@.subrange(0, line@.len() as int) =~= line@);
    }
    while !settled && lo < hi
        invariant
            lo <= hi <= line@.len(),
            trim_ws(line@) == trim_ws(line@.subrange(lo as int, hi as int)),
            settled ==> (lo < hi && trim_ws(line@.subrange(lo as int, hi as int))
                == line@.subrange(lo as int, hi as int)),
        decreases hi - lo + (if settled {
            0int
        } else {
            1int
        }),
    {
        let ghost pre = line@.subrange(lo as int, hi as int);
        if is_ws_exec(line[lo]) {
            proof {
                assert(pre[0] == line@[lo as int]);
                assert(pre.skip(1) =~= line@.subrange(lo + 1, hi as int));
            }
            lo = lo + 1;
        } else if is_ws_exec(line[hi - 1]) {
            proof {
                assert(pre.last() == line@[hi - 1]);
                assert(!is_ws(pre[0]));
                assert(pre.drop_last() =~= line@.subrange(lo as int, hi - 1));
            }
            hi = hi - 1;
        } else {
            proof {
                assert(!is_ws(pre[0]) && !is_ws(pre.last()));
            }
            settled = true;
        }
    }
    let mut out: Vec<char> = Vec::new();
    let mut i = lo;
    while i < hi
        invariant
            lo <= i <= hi <= line@.len(),
            out@ == line@.subrange(lo as int, i as int),
        decreases hi - i,
    {
        out.push(line[i]);
        proof {
            assert(out@ =~= line@.subrange(lo as int, i + 1));
        }
        i = i + 1;
    }
    proof {
        if lo == hi {
            assert(line@.subrange(lo as int, hi as int) =~= Seq::<char>::empty());
        }
        assert(out@ =~= line@.subrange(lo as int, hi as int));
        assert(out@ =~= trim_ws(line@));
    }
    out
}

/// Builds a string from a character vector.
fn chars_to_string(cs: &Vec<char>) -> (r: String)
    ensures
        r@ == cs@,
{
    let n = cs.len();
    let mut out = String::new();
    let mut i: usize = 0;
    while i < n
        invariant
            n == cs@.len(),
            i <= n,
            out@ == cs@.take(i as int),
        decreases n - i,
    {
        crate::text::string_push(&mut out, cs[i]);
        proof {
            assert(out@ =~= cs@.take(i + 1));
        }
        i = i + 1;
    }
    proof {
        assert(cs@.take(n as int) =~= cs@);
    }
    out
}

/// Parses a salt-list text: one salt per contributing line, in order.
pub fn parse_salts(text: &str) -> (r: Vec<String>)
    ensures
        r@.map_values(|s: String| s@) == salts_of(text@),
{
    let n = text.unicode_len();
    let mut out: Vec<String> = Vec::new();
    let mut i: usize = 0;
    proof {
        assert(text@.skip(0) =~= text@);
        assert(out@.map_values(|s: String| s@) + salts_of(text@.skip(0)) =~= salts_of(text@));
    }
    while i < n
        invariant
            i <= n,
            n == text@.len(),
            out@.map_values(|s: String| s@) + salts_of(text@.skip(i as int)) == salts_of(text@),
        decreases n - i,
    {
        let ghost rem = text@.skip(i as int);
        // scan one line
        let mut linebuf: Vec<char> = Vec::new();
        let mut j = i;
        let mut hit_nl = false;
        while !hit_nl && j < n
            invariant
                i <= j <= n,
                n == text@.len(),
                linebuf@ == text@.subrange(i as int, j as int),
                forall|k: int| i <= k < j ==> text@[k] != '\n',
                hit_nl ==> (j < n && text@[j as int] == '\n'),
            decreases n - j + (if hit_nl {
                0int
            } else {
                1int
            }),
        {
            let c = text.get_char(j);
            if c == '\n' {
                hit_nl = true;
            } else {
                linebuf.push(c);
                proof {
                    assert(linebuf@ =~= text@.subrange(i as int, j + 1));
                }
                j = j + 1;
            }
        }
        proof {
            lemma_first_newline(rem, j - i);
            assert(rem.take(j - i) =~= linebuf@);
            if j < n {
                assert(rem.skip(j - i + 1) =~= text@.skip(j + 1));
            }
        }
        let trimmed = trim_chars(&linebuf);
        let is_hash = if linebuf.len() > 0 {
            linebuf[0] == '#'
        } else {
            false
        };
        let ghost out0 = out@;
        if trimmed.len() > 0 && !is_hash {
            proof {
                assert(line_is_salt(linebuf@));
            }
            out.push(chars_to_string(&trimmed));
            proof {
                assert(out@.map_values(|s: String| s@) =~= out0.map_values(|s: String| s@).push(
                    trim_ws(linebuf@),
                ));
            }
        } else {
            proof {
                assert(!line_is_salt(linebuf@));
            }
        }
        if j < n {
            i = j + 1;
        } else {
            i = n;
            proof {
                assert(text@.skip(n as int) =~= Seq::<char>::empty());
            }
        }
        proof {
            let tail = salts_of(text@.skip(i as int));
            if line_is_salt(linebuf@) {
                assert(salts_of(rem) =~= seq![trim_ws(linebuf@)] + tail);
                assert(out0.map_values(|s: String| s@).push(trim_ws(linebuf@)) + tail =~= (
                out0.map_values(|s: String| s@)) + (seq![trim_ws(linebuf@)] + tail));
            } else {
                assert(salts_of(rem) =~= tail);
            }
        }
    }
    proof {
        assert(text@.skip(n as int) =~= Seq::<char>::empty());
        assert(out@.map_values(|s: String| s@) + Seq::<Seq<char>>::empty() =~= out@.map_values(
            |s: String| s@,
        ));
    }
    out
}

/// Whether a string is a candidate salt: the one given directly, or any
/// loaded one.
pub open spec fn is_salt_candidate(s: Seq<char>, cli: Option<Seq<char>>, loaded: Seq<Seq<char>>) -> bool {
    (cli is Some && s == cli->0) || loaded.contains(s)
}

/// The views of a vector of strings.
pub open spec fn string_views(v: Seq<String>) -> Seq<Seq<char>> {
    v.map_values(|x: String| x@)
}

/// The view of an optional salt string.
pub open spec fn opt_salt_view(o: Option<String>) -> Option<Seq<char>> {
    match o {
        Option::Some(s) => Option::Some(s@),
        Option::None => Option::None,
    }
}

/// The distinct candidate salts in probing order: first occurrences kept,
/// the directly supplied salt first.
pub open spec fn dedup_salts(acc: Seq<Seq<char>>, loaded: Seq<Seq<char>>) -> Seq<Seq<char>>
    decreases loaded.len(),
{
    if loaded.len() == 0 {
        acc
    } else {
        dedup_salts(
            if acc.contains(loaded[0]) {
                acc
            } else {
                acc.push(loaded[0])
            },
            loaded.skip(1),
        )
    }
}

/// The canonical candidate-salt list of a search.
pub open spec fn salt_candidates(cli: Option<Seq<char>>, loaded: Seq<Seq<char>>) -> Seq<
    Seq<char>,
> {
    dedup_salts(
        match cli {
            Option::Some(s) => seq![s],
            Option::None => Seq::empty(),
        },
        loaded,
    )
}

/// Builds the distinct candidate salts, the directly supplied one first.
pub fn build_salt_candidates(cli_skey: &Option<String>, loaded: &Vec<String>) -> (r: Vec<String>)
    ensures
        forall|j: int|
            0 <= j < r@.len() ==> is_salt_candidate(
                (#[trigger] r@[j])@,
                opt_salt_view(*cli_skey),
                string_views(loaded@),
            ),
        forall|s: Seq<char>|
            #[trigger] is_salt_candidate(
                s,
                opt_salt_view(*cli_skey),
                string_views(loaded@),
            ) ==> (exists|j: int| 0 <= j < r@.len() && (#[trigger] r@[j])@ == s),
        r@.len() > 0 <==> (cli_skey is Some || loaded@.len() > 0),
        cli_skey is Some ==> r@.len() > 0 && r@[0]@ == cli_skey->0@,
        string_views(r@) == salt_candidates(opt_salt_view(*cli_skey), string_views(loaded@)),
{
    let mut out: Vec<String> = Vec::new();
    match cli_skey {
        Some(k) => {
            out.push(k.clone());
        },
        None => {},
    }
    proof {
        assert(string_views(out@) =~= (match opt_salt_view(*cli_skey) {
            Option::Some(s) => seq![s],
            Option::None => Seq::<Seq<char>>::empty(),
        }));
        assert(string_views(loaded@).skip(0) =~= string_views(loaded@));
    }
    let n = loaded.len();
    let mut i: usize = 0;
    while i < n
        invariant
            i <= n,
            n == loaded@.len(),
            cli_skey is Some ==> out@.len() > 0 && out@[0]@ == cli_skey->0@,
            cli_skey is None && i == 0 ==> out@.len() == 0,
            dedup_salts(string_views(out@), string_views(loaded@).skip(i as int)) == salt_candidates(
                opt_salt_view(*cli_skey),
                string_views(loaded@),
            ),
            forall|j: int|
                0 <= j < out@.len() ==> is_salt_candidate(
                    (#[trigger] out@[j])@,
                    opt_salt_view(*cli_skey),
                    string_views(loaded@),
                ),
            forall|t: int|
                0 <= t < i ==> (exists|j: int|
                    0 <= j < out@.len() && (#[trigger] out@[j])@ == (#[trigger] loaded@[t])@),
        decreases n - i,
    {
        let cand = &loaded[i];
        let m = out.len();
        let mut k: usize = 0;
        let mut dup = false;
        while k < m && !dup
            invariant
                k <= m,
                m == out@.len(),
                dup ==> (exists|j: int| 0 <= j < out@.len() && (#[trigger] out@[j])@ == cand@),
                !dup ==> (forall|j: int| 0 <= j < k ==> (#[trigger] out@[j])@ != cand@),
            decreases m - k + (if dup {
                0int
            } else {
                1int
            }),
        {
            if out[k].eq(cand) {
                dup = true;
                proof {
                    assert(out@[k as int]@ == cand@);
                }
            } else {
                k = k + 1;
            }
        }
        let ghost out_before = out@;
        proof {
            let lv = string_views(loaded@);
            assert(lv.skip(i as int)[0] == loaded@[i as int]@);
            assert(lv.skip(i as int).skip(1) =~= lv.skip(i + 1));
            if dup {
                let j0 = choose|j: int|
                    0 <= j < out_before.len() && (#[trigger] out_before[j])@ == cand@;
                assert(string_views(out_before)[j0] == cand@);
                assert(string_views(out_before).contains(loaded@[i as int]@));
            } else {
                assert forall|j: int|
                    0 <= j < string_views(out_before).len() implies #[trigger] string_views(
                    out_before,
                )[j] != loaded@[i as int]@ by {
                    assert(string_views(out_before)[j] == out_before[j]@);
                }
                assert(!string_views(out_before).contains(loaded@[i as int]@));
            }
        }
        if !dup {
            out.push(cand.clone());
            proof {
                assert(string_views(loaded@)[i as int] == loaded@[i as int]@);
                assert(string_views(loaded@).contains(loaded@[i as int]@));
                assert(out@[out@.len() - 1]@ == loaded@[i as int]@);
                assert(string_views(out@) =~= string_views(out_before).push(loaded@[i as int]@));
            }
        }
        proof {
            assert forall|t: int| 0 <= t < i implies (exists|j: int|
                0 <= j < out@.len() && (#[trigger] out@[j])@ == (#[trigger] loaded@[t])@) by {
                let j0 = choose|j: int|
                    0 <= j < out_before.len() && (#[trigger] out_before[j])@ == loaded@[t]@;
                assert(out@[j0] == out_before[j0]);
                assert(0 <= j0 < out@.len() && out@[j0]@ == loaded@[t]@);
            }
            if dup {
                let j0 = choose|j: int|
                    0 <= j < out_before.len() && (#[trigger] out_before[j])@ == cand@;
                assert(out@[j0]@ == loaded@[i as int]@);
                assert(exists|j: int|
                    0 <= j < out@.len() && (#[trigger] out@[j])@ == (loaded@[i as int])@);
            } else {
                assert(out@[out@.len() - 1]@ == loaded@[i as int]@);
                assert(exists|j: int|
                    0 <= j < out@.len() && (#[trigger] out@[j])@ == (loaded@[i as int])@);
            }
        }
        i = i + 1;
    }
    proof {
        assert forall|s: Seq<char>|
            is_salt_candidate(
                s,
                opt_salt_view(*cli_skey),
                string_views(loaded@),
            ) implies (exists|j: int| 0 <= j < out@.len() && (#[trigger] out@[j])@ == s) by {
            if cli_skey is Some && s == opt_salt_view(*cli_skey)->0 {
                assert(opt_salt_view(*cli_skey)->0 == cli_skey->0@);
                assert(out@[0]@ == s);
            } else {
                assert(string_views(loaded@).contains(s));
                let t = choose|t: int|
                    0 <= t < loaded@.len() && string_views(loaded@)[t] == s;
                assert(loaded@[t]@ == s);
                let j0 = choose|j: int|
                    0 <= j < out@.len() && (#[trigger] out@[j])@ == (#[trigger] loaded@[t])@;
                assert(0 <= j0 < out@.len() && out@[j0]@ == s);
            }
        }
        if loaded@.len() > 0 && !(cli_skey is Some) {
            let j0 = choose|j: int|
                0 <= j < out@.len() && (#[trigger] out@[j])@ == (#[trigger] loaded@[0])@;
            assert(out@.len() > 0);
        }
        assert(string_views(loaded@).skip(n as int) =~= Seq::<Seq<char>>::empty());
        assert(dedup_salts(string_views(out@), Seq::<Seq<char>>::empty()) == string_views(out@));
    }
    out
}

} // verus!
