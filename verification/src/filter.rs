//! Name filters: regular expressions over entry names, through the
//! `regex` crate.
//!
//! Matching itself is outside this library; the uninterpreted functions
//! below name its outcome as a function of the pattern and the text, and
//! the extraction contracts are stated over those names.

use vstd::prelude::*;

verus! {

use crate::errors::CodecError;

#[verifier::external_type_specification]
#[verifier::external_body]
pub struct ExRegex(regex::Regex);

/// Whether `regex::Regex::new` accepts a pattern.
pub uninterp spec fn regex_pattern_ok(pattern: Seq<char>) -> bool;

/// Whether the regular expression compiled from `pattern` finds a match
/// anywhere in `text`, as `regex::Regex::find` computes it.
pub uninterp spec fn regex_match(pattern: Seq<char>, text: Seq<char>) -> bool;

/// Relies on `regex::Regex::new`: compilation succeeds exactly on valid
/// patterns.
#[verifier::external_body]
fn regex_new(pattern: &str) -> (r: Option<regex::Regex>)
    ensures
        r is Some <==> regex_pattern_ok(pattern@),
{
    regex::Regex::new(pattern).ok()
}

/// A compiled name filter, remembering the pattern it was built from.
pub struct NameFilter {
    re: regex::Regex,
    pattern: Ghost<Seq<char>>,
}

impl NameFilter {
    /// The pattern this filter was compiled from.
    pub closed spec fn pattern(self) -> Seq<char> {
        self.pattern@
    }

    /// Compiles a filter; fails exactly on invalid patterns.
    pub fn new(pattern: &str) -> (r: Result<NameFilter, CodecError>)
        ensures
            r is Ok <==> regex_pattern_ok(pattern@),
            r is Ok ==> r->Ok_0.pattern() == pattern@,
            r is Err ==> r->Err_0 == CodecError::InvalidRegex,
    {
        match regex_new(pattern) {
            Some(re) => Ok(NameFilter { re, pattern: Ghost(pattern@) }),
            None => Err(CodecError::InvalidRegex),
        }
    }

    /// Relies on `regex::Regex::find`: whether a match exists depends only
    /// on the pattern and the text.  The `re` field is only ever built by
    /// [`NameFilter::new`] from the remembered pattern.
    #[verifier::external_body]
    pub fn matches(&self, text: &str) -> (r: bool)
        ensures
            r == regex_match(self.pattern(), text@),
    {
        self.re.find(text).is_some()
    }
}

/// Whether a name passes a filter set: an empty set passes everything,
/// otherwise some filter must match.
pub open spec fn passes_filters(patterns: Seq<Seq<char>>, name: Seq<char>) -> bool {
    patterns.len() == 0 || exists|i: int| 0 <= i < patterns.len() && regex_match(#[trigger] patterns[i], name)
}

/// The patterns of a filter list.
pub open spec fn patterns_of(fs: Seq<NameFilter>) -> Seq<Seq<char>> {
    fs.map_values(|f: NameFilter| f.pattern())
}

/// Compiles every filter string; fails on the first invalid pattern.
pub fn make_regex(strs: &Vec<String>) -> (r: Result<Vec<NameFilter>, CodecError>)
    ensures
        r is Ok <==> (forall|i: int| 0 <= i < strs@.len() ==> regex_pattern_ok(#[trigger] strs@[i]@)),
        r is Ok ==> patterns_of(r->Ok_0@) == strs@.map_values(|s: String| s@),
        r is Err ==> r->Err_0 == CodecError::InvalidRegex,
{
    let n = strs.len();
    let mut out: Vec<NameFilter> = Vec::new();
    let mut i: usize = 0;
    while i < n
        invariant
            n == strs@.len(),
            i <= n,
            out@.len() == i,
            forall|j: int| 0 <= j < i ==> regex_pattern_ok(#[trigger] strs@[j]@),
            forall|j: int| 0 <= j < i ==> (#[trigger] out@[j]).pattern() == strs@[j]@,
        decreases n - i,
    {
        let f = match NameFilter::new(strs[i].as_str()) {
            Ok(f) => f,
            Err(e) => {
                return Err(e);
            },
        };
        out.push(f);
        i = i + 1;
    }
    proof {
        assert(patterns_of(out@) =~= strs@.map_values(|s: String| s@));
    }
    Ok(out)
}

/// Whether any filter in a compiled list matches a name; an empty list
/// passes everything.
pub fn entry_passes(filters: &Vec<NameFilter>, name: &str) -> (r: bool)
    ensures
        r == passes_filters(patterns_of(filters@), name@),
{
    let n = filters.len();
    if n == 0 {
        return true;
    }
    let mut i: usize = 0;
    while i < n
        invariant
            n == filters@.len(),
            i <= n,
            forall|j: int| 0 <= j < i ==> !regex_match((#[trigger] filters@[j]).pattern(), name@),
        decreases n - i,
    {
        if filters[i].matches(name) {
            proof {
                assert(regex_match(patterns_of(filters@)[i as int], name@));
            }
            return true;
        }
        i = i + 1;
    }
    proof {
        assert forall|j: int| 0 <= j < patterns_of(filters@).len() implies !regex_match(
            #[trigger] patterns_of(filters@)[j],
            name@,
        ) by {
            assert(patterns_of(filters@)[j] == filters@[j].pattern());
        }
    }
    false
}

} // verus!
