//! Sample names from the file names of per-sample QC reports.

use vstd::prelude::*;
use vstd::string::StrSliceExecFns;

verus! {

/// `s` without `suffix` at its end, when it ends with it.
pub open spec fn strip_suffix_spec(s: Seq<char>, suffix: Seq<char>) -> Option<Seq<char>> {
    if suffix.len() <= s.len() && s.subrange(s.len() - suffix.len(), s.len() as int) == suffix {
        Some(s.subrange(0, s.len() - suffix.len()))
    } else {
        None
    }
}

fn strip_suffix<'a>(s: &'a str, suffix: &str) -> (r: Option<&'a str>)
    ensures
        r is None <==> strip_suffix_spec(s@, suffix@) is None,
        r matches Some(b) ==> strip_suffix_spec(s@, suffix@) == Some(b@),
{
    let n = s.unicode_len();
    let m = suffix.unicode_len();
    if m > n {
        return None;
    }
    let start = n - m;
    let mut i: usize = 0;
    while i < m
        invariant
            0 <= i <= m,
            start + m == n,
            n == s@.len(),
            m == suffix@.len(),
            forall|j: int| 0 <= j < i ==> s@[start + j] == #[trigger] suffix@[j],
        decreases m - i,
    {
        if s.get_char(start + i) != suffix.get_char(i) {
            assert(s@.subrange(start as int, n as int)[i as int] != suffix@[i as int]);
            return None;
        }
        i += 1;
    }
    assert(s@.subrange(start as int, n as int) =~= suffix@);
    Some(s.substring_char(0, start))
}

/// `s` without `suffix`, or `s` itself when it does not end with it.
pub open spec fn without_suffix(s: Seq<char>, suffix: Seq<char>) -> Seq<char> {
    match strip_suffix_spec(s, suffix) {
        Some(b) => b,
        None => s,
    }
}

/// The sample a report file belongs to: the file name without `.json` and
/// without the first report suffix it ends with, tried in a fixed order.
pub open spec fn sample_name_of(filename: Seq<char>) -> Seq<char> {
    let name = without_suffix(filename, ".json"@);
    if strip_suffix_spec(name, "_quality_stats"@) is Some {
        without_suffix(name, "_quality_stats"@)
    } else if strip_suffix_spec(name, "_contamination_report"@) is Some {
        without_suffix(name, "_contamination_report"@)
    } else if strip_suffix_spec(name, "_vlp_assessment"@) is Some {
        without_suffix(name, "_vlp_assessment"@)
    } else if strip_suffix_spec(name, "_contamination"@) is Some {
        without_suffix(name, "_contamination"@)
    } else if strip_suffix_spec(name, "_vlp"@) is Some {
        without_suffix(name, "_vlp"@)
    } else {
        without_suffix(name, "_qc"@)
    }
}

/// The sample name of a QC report file name; a name that matches no known
/// report suffix is its own sample name.
pub fn extract_sample_name(filename: &str) -> (r: Option<String>)
    ensures
        r matches Some(s) && s@ == sample_name_of(filename@),
{
    let name = match strip_suffix(filename, ".json") {
        Some(b) => b,
        None => filename,
    };
    if let Some(base) = strip_suffix(name, "_quality_stats") {
        return Some(base.to_owned());
    }
    if let Some(base) = strip_suffix(name, "_contamination_report") {
        return Some(base.to_owned());
    }
    if let Some(base) = strip_suffix(name, "_vlp_assessment") {
        return Some(base.to_owned());
    }
    if let Some(base) = strip_suffix(name, "_contamination") {
        return Some(base.to_owned());
    }
    if let Some(base) = strip_suffix(name, "_vlp") {
        return Some(base.to_owned());
    }
    if let Some(base) = strip_suffix(name, "_qc") {
        return Some(base.to_owned());
    }
    Some(name.to_owned())
}

} // verus!
