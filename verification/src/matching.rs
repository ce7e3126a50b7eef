use vstd::prelude::*;

verus! {

/// Whether `regex::Regex::new` accepts `pattern`: well formed and within
/// the default size limit.
pub uninterp spec fn regex_valid(pattern: Seq<char>) -> bool;

/// The (start, end) byte spans of the successive non-overlapping matches
/// that `pattern` has in `content`, leftmost first.
pub uninterp spec fn regex_spans(pattern: Seq<char>, content: Seq<char>) -> Seq<(usize, usize)>;

/// `pattern` matches somewhere in `text`.
pub open spec fn regex_matches(pattern: Seq<char>, text: Seq<char>) -> bool {
    regex_spans(pattern, text).len() > 0
}

/// Relies on regex::Regex::new, which errs exactly on the patterns it
/// rejects, and on regex::Regex::find_iter with Match::start and
/// Match::end: the byte spans of the successive non-overlapping matches,
/// leftmost first, a function of the pattern and the haystack alone, each
/// a well-formed range.
#[verifier::external_body]
pub fn regex_find_spans(pattern: &str, content: &str) -> (r: Option<Vec<(usize, usize)>>)
    ensures
        r is Some <==> regex_valid(pattern@),
        r matches Some(v) ==> v@ == regex_spans(pattern@, content@),
        r matches Some(v) ==> forall|k: int| 0 <= k < v@.len() ==> (#[trigger] v@[k]).0 <= v@[k].1,
{
    match regex::Regex::new(pattern) {
        Ok(re) => Some(re.find_iter(content).map(|m| (m.start(), m.end())).collect()),
        Err(_) => None,
    }
}

/// Relies on regex::Regex::new and regex::Regex::is_match, which returns
/// true if and only if the regex matches somewhere in the haystack, i.e.
/// exactly when find_iter would yield a match.
#[verifier::external_body]
pub fn regex_is_match(pattern: &str, text: &str) -> (r: Option<bool>)
    ensures
        r is Some <==> regex_valid(pattern@),
        r matches Some(b) ==> b == regex_matches(pattern@, text@),
{
    match regex::Regex::new(pattern) {
        Ok(re) => Some(re.is_match(text)),
        Err(_) => None,
    }
}

/// Relies on regex::Regex::new: Ok exactly on the patterns it accepts.
#[verifier::external_body]
pub fn regex_pattern_valid(pattern: &str) -> (r: bool)
    ensures
        r == regex_valid(pattern@),
{
    regex::Regex::new(pattern).is_ok()
}

} // verus!
