use vstd::prelude::*;

use crate::bpe::TokenError;

verus! {

#[verifier::external_type_specification]
#[verifier::external_body]
pub struct ExRegex(pcre2::bytes::Regex);

/// The leftmost match the compiled pattern finds in a haystack, as byte
/// offsets. The result is a function of the pattern text, the Unicode mode
/// and the haystack alone.
pub uninterp spec fn first_match_of(pattern: Seq<u8>, unicode: bool, hay: Seq<u8>) -> Option<
    (int, int),
>;

/// All successive non-overlapping matches the compiled pattern finds in a
/// haystack, in order, as byte offsets.
pub uninterp spec fn all_matches_of(pattern: Seq<u8>, unicode: bool, hay: Seq<u8>) -> Seq<
    (int, int),
>;

/// Whether pattern compilation succeeds: the pattern bytes are valid UTF-8
/// and the engine accepts the pattern under the given Unicode mode. The
/// engine falls back silently when no JIT is available, so success is a
/// function of the pattern text and the mode alone.
pub uninterp spec fn pcre2_compiles(pattern: Seq<u8>, unicode: bool) -> bool;

/// A compiled matcher, carrying the pattern text and mode it was built from.
pub struct Matcher {
    re: pcre2::bytes::Regex,
    pattern: Vec<u8>,
    unicode: bool,
}

impl Matcher {
    /// The pattern text this matcher was compiled from.
    pub closed spec fn pattern_view(&self) -> Seq<u8> {
        self.pattern@
    }

    /// Whether the matcher was compiled with Unicode properties and UTF
    /// matching.
    pub closed spec fn unicode_mode(&self) -> bool {
        self.unicode
    }
}

/// Relies on pcre2::bytes::RegexBuilder::build: compiles the pattern, with
/// Unicode character properties and UTF matching switched by `unicode`, and
/// JIT when available. The returned matcher carries exactly the pattern and
/// mode it was built from.
#[verifier::external_body]
pub(crate) fn build_matcher(pattern: &Vec<u8>, unicode: bool) -> (r: Result<Matcher, TokenError>)
    ensures
        (r is Ok) == pcre2_compiles(pattern@, unicode),
        r matches Ok(m) ==> m.pattern_view() == pattern@ && m.unicode_mode() == unicode,
        r matches Err(e) ==> e == TokenError::InvalidPattern,
{
    let text = match std::str::from_utf8(pattern.as_slice()) {
        Ok(t) => t,
        Err(_) => {
            return Err(TokenError::InvalidPattern);
        },
    };
    let built = pcre2::bytes::RegexBuilder::new().jit_if_available(true).ucp(unicode).utf(
        unicode,
    ).build(text);
    match built {
        Ok(re) => Ok(Matcher { re, pattern: pattern.clone(), unicode }),
        Err(_) => Err(TokenError::InvalidPattern),
    }
}

/// Relies on pcre2::bytes::Regex::find: reports the leftmost match as byte
/// offsets into the haystack, or a match-time failure of the engine.
#[verifier::external_body]
pub(crate) fn matcher_find(m: &Matcher, hay: &Vec<u8>) -> (r: Result<
    Option<(usize, usize)>,
    TokenError,
>)
    ensures
        r matches Ok(o) ==> ({
            let fm = first_match_of(m.pattern_view(), m.unicode_mode(), hay@);
            &&& (o is Some <==> fm is Some)
            &&& (o matches Some(se) ==> fm == Some((se.0 as int, se.1 as int)) && se.0 <= se.1
                <= hay@.len())
        }),
        r matches Err(e) ==> e == TokenError::MatchFailed,
{
    match m.re.find(hay.as_slice()) {
        Ok(Some(mm)) => Ok(Some((mm.start(), mm.end()))),
        Ok(None) => Ok(None),
        Err(_) => Err(TokenError::MatchFailed),
    }
}

/// Relies on pcre2::bytes::Regex::find_iter: reports every successive
/// non-overlapping match in order, as byte offsets; consecutive matches do
/// not overlap and their start offsets strictly increase, as the iterator
/// always resumes at or after the previous match's end and skips over an
/// empty match at a position it already passed.
#[verifier::external_body]
pub(crate) fn matcher_find_all(m: &Matcher, hay: &Vec<u8>) -> (r: Result<
    Vec<(usize, usize)>,
    TokenError,
>)
    ensures
        r matches Ok(v) ==> ({
            let ms = all_matches_of(m.pattern_view(), m.unicode_mode(), hay@);
            &&& v@.len() == ms.len()
            &&& forall|i: int|
                0 <= i < v@.len() ==> #[trigger] ms[i] == (v@[i].0 as int, v@[i].1 as int)
            &&& forall|i: int| 0 <= i < v@.len() ==> (#[trigger] v@[i].0) <= v@[i].1 <= hay@.len()
            &&& forall|i: int|
                0 <= i < v@.len() - 1 ==> (#[trigger] v@[i].1) <= v@[i + 1].0 && v@[i].0 < v@[i
                    + 1].0
        }),
        r matches Err(e) ==> e == TokenError::MatchFailed,
{
    let collected: Result<Vec<(usize, usize)>, pcre2::Error> = m.re.find_iter(
        hay.as_slice(),
    ).map(|mm| mm.map(|x| (x.start(), x.end()))).collect();
    collected.map_err(|_| TokenError::MatchFailed)
}

/// Relies on alloc's FromIterator for String: collects the characters in
/// order into an owned string.
#[verifier::external_body]
pub(crate) fn chars_to_string(cs: &Vec<char>) -> (r: String)
    ensures
        r@ == cs@,
{
    cs.iter().collect()
}

} // verus!
