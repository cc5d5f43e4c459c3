use vstd::prelude::*;

use crate::bpe::{sub_bytes, TokenError};
use crate::vocab::Vocab;

verus! {

use vstd::string::StringExecFns;
use vstd::string::StrSliceExecFns;
use vstd::utf8::encode_utf8;

/// The reserved control-marker literals.
#[derive(PartialEq, Eq, Structural, Clone, Copy, Hash, Debug)]
pub enum SpecialToken {
    EndOfText,
    FimPrefix,
    FimMiddle,
    FimSuffix,
    EndOfPrompt,
}

impl SpecialToken {
    /// The literal text of the marker.
    pub open spec fn spec_literal(&self) -> Seq<char> {
        match self {
            SpecialToken::EndOfText => "<|endoftext|>"@,
            SpecialToken::FimPrefix => "<|fim_prefix|>"@,
            SpecialToken::FimMiddle => "<|fim_middle|>"@,
            SpecialToken::FimSuffix => "<|fim_suffix|>"@,
            SpecialToken::EndOfPrompt => "<|endofprompt|>"@,
        }
    }

    pub fn to_string(&self) -> (r: String)
        ensures
            r@ == self.spec_literal(),
    {
        match self {
            SpecialToken::EndOfText => String::from_str("<|endoftext|>"),
            SpecialToken::FimPrefix => String::from_str("<|fim_prefix|>"),
            SpecialToken::FimMiddle => String::from_str("<|fim_middle|>"),
            SpecialToken::FimSuffix => String::from_str("<|fim_suffix|>"),
            SpecialToken::EndOfPrompt => String::from_str("<|endofprompt|>"),
        }
    }
}

/// The known vocabulary tables.
#[derive(PartialEq, Eq, Structural, Clone, Copy, Hash, Debug)]
pub enum Dict {
    Cl100kBase,
    P50kBase,
    P50kEdit,
    R50kBase,
}

impl Dict {
    pub open spec fn spec_name(&self) -> Seq<char> {
        match self {
            Dict::Cl100kBase => "cl100k_base"@,
            Dict::P50kBase => "p50k_base"@,
            Dict::P50kEdit => "p50k_edit"@,
            Dict::R50kBase => "r50k_base"@,
        }
    }

    pub fn to_string(&self) -> (r: String)
        ensures
            r@ == self.spec_name(),
    {
        match self {
            Dict::Cl100kBase => String::from_str("cl100k_base"),
            Dict::P50kBase => String::from_str("p50k_base"),
            Dict::P50kEdit => String::from_str("p50k_edit"),
            Dict::R50kBase => String::from_str("r50k_base"),
        }
    }

    /// The segmentation pattern of the table.
    pub open spec fn spec_regex_pattern(&self) -> Seq<char> {
        match self {
            Dict::Cl100kBase => "(?i:'s|'t|'re|'ve|'m|'ll|'d)|[^\\r\\n\\p{L}\\p{N}]?\\p{L}+|\\p{N}{1,3}| ?[^\\s\\p{L}\\p{N}]+[\\r\\n]*|\\s*[\\r\\n]+|\\s+(?!\\S)|\\s+"@,
            _ => "'s|'t|'re|'ve|'m|'ll|'d| ?\\p{L}+| ?\\p{N}+| ?[^\\s\\p{L}\\p{N}]+|\\s+(?!\\S)|\\s+"@,
        }
    }

    pub fn get_regex_pattern(&self) -> (r: String)
        ensures
            r@ == self.spec_regex_pattern(),
    {
        match self {
            Dict::Cl100kBase => String::from_str(
                "(?i:'s|'t|'re|'ve|'m|'ll|'d)|[^\\r\\n\\p{L}\\p{N}]?\\p{L}+|\\p{N}{1,3}| ?[^\\s\\p{L}\\p{N}]+[\\r\\n]*|\\s*[\\r\\n]+|\\s+(?!\\S)|\\s+",
            ),
            _ => String::from_str(
                "'s|'t|'re|'ve|'m|'ll|'d| ?\\p{L}+| ?\\p{N}+| ?[^\\s\\p{L}\\p{N}]+|\\s+(?!\\S)|\\s+",
            ),
        }
    }
}

/// The chat-model name prefixes the library resolves.
#[derive(PartialEq, Eq, Structural, Clone, Copy, Hash, Debug)]
pub enum ChatModelPrefix {
    Gpt3dot5,
    Gpt4,
}

/// `p` is a prefix of `s`.
pub open spec fn is_prefix(s: Seq<char>, p: Seq<char>) -> bool {
    s.len() >= p.len() && s.subrange(0, p.len() as int) == p
}

/// Character-by-character prefix test.
pub fn has_prefix(s: &str, p: &str) -> (r: bool)
    ensures
        r == is_prefix(s@, p@),
{
    let pl = p.unicode_len();
    let sl = s.unicode_len();
    if sl < pl {
        return false;
    }
    let mut i: usize = 0;
    while i < pl
        invariant
            i <= pl,
            pl == p@.len(),
            pl <= s@.len(),
            forall|j: int| 0 <= j < i ==> s@[j] == p@[j],
        decreases pl - i,
    {
        if s.get_char(i) != p.get_char(i) {
            proof {
                assert(s@.subrange(0, pl as int)[i as int] != p@[i as int]);
            }
            return false;
        }
        i = i + 1;
    }
    proof {
        assert(s@.subrange(0, pl as int) =~= p@);
    }
    true
}

impl ChatModelPrefix {
    pub open spec fn spec_name(&self) -> Seq<char> {
        match self {
            ChatModelPrefix::Gpt4 => "gpt-4"@,
            ChatModelPrefix::Gpt3dot5 => "gpt-3.5"@,
        }
    }

    pub fn to_string(&self) -> (r: String)
        ensures
            r@ == self.spec_name(),
    {
        match self {
            ChatModelPrefix::Gpt4 => String::from_str("gpt-4"),
            ChatModelPrefix::Gpt3dot5 => String::from_str("gpt-3.5"),
        }
    }

    /// Resolve a model name by its prefix; the longer prefix is tried first.
    pub fn get_by_name(chat_model_name: &str) -> (r: Result<Self, TokenError>)
        ensures
            match r {
                Ok(p) => (p == ChatModelPrefix::Gpt3dot5 && is_prefix(
                    chat_model_name@,
                    "gpt-3.5"@,
                )) || (p == ChatModelPrefix::Gpt4 && !is_prefix(chat_model_name@, "gpt-3.5"@)
                    && is_prefix(chat_model_name@, "gpt-4"@)),
                Err(e) => e == TokenError::UnknownModel && !is_prefix(chat_model_name@, "gpt-3.5"@)
                    && !is_prefix(chat_model_name@, "gpt-4"@),
            },
    {
        let p35 = Self::Gpt3dot5.to_string();
        if has_prefix(chat_model_name, p35.as_str()) {
            return Ok(Self::Gpt3dot5);
        }
        let p4 = Self::Gpt4.to_string();
        if has_prefix(chat_model_name, p4.as_str()) {
            return Ok(Self::Gpt4);
        }
        Err(TokenError::UnknownModel)
    }
}

// --- parsing of a vocabulary table: `base64(token) <space> rank` lines ---

pub open spec fn is_ws_byte(b: u8) -> bool {
    b == 32 || b == 9 || b == 13 || b == 10 || b == 11 || b == 12
}

pub open spec fn all_ws(s: Seq<u8>) -> bool {
    forall|i: int| 0 <= i < s.len() ==> is_ws_byte(#[trigger] s[i])
}

pub open spec fn strip_cr(s: Seq<u8>) -> Seq<u8> {
    if s.len() > 0 && s.last() == 13 {
        s.drop_last()
    } else {
        s
    }
}

pub open spec fn is_digit(b: u8) -> bool {
    48 <= b <= 57
}

pub open spec fn all_digits(s: Seq<u8>) -> bool {
    s.len() > 0 && forall|i: int| 0 <= i < s.len() ==> is_digit(#[trigger] s[i])
}

/// The decimal value of a digit string.
pub open spec fn digits_value(s: Seq<u8>) -> int
    decreases s.len(),
{
    if s.len() == 0 {
        0
    } else {
        digits_value(s.drop_last()) * 10 + (s.last() - 48)
    }
}

/// The index of the first newline at or after `i`, or the length.
pub open spec fn next_nl(s: Seq<u8>, i: int) -> int
    decreases s.len() - i,
{
    if i < 0 || i >= s.len() {
        s.len() as int
    } else if s[i] == 10 {
        i
    } else {
        next_nl(s, i + 1)
    }
}

/// The index of the first space at or after `i`, or the length.
pub open spec fn first_space(s: Seq<u8>, i: int) -> int
    decreases s.len() - i,
{
    if i < 0 || i >= s.len() {
        s.len() as int
    } else if s[i] == 32 {
        i
    } else {
        first_space(s, i + 1)
    }
}

/// How many space bytes a line holds.
pub open spec fn space_count(s: Seq<u8>) -> int
    decreases s.len(),
{
    if s.len() == 0 {
        0int
    } else {
        space_count(s.drop_last()) + (if s.last() == 32 {
            1int
        } else {
            0int
        })
    }
}

/// What the base64 engine's standard alphabet decodes a field to, a function
/// of the field alone; `None` when the field is not valid base64.
pub uninterp spec fn base64_decoded(s: Seq<u8>) -> Option<Seq<u8>>;

/// Relies on base64's STANDARD engine `decode`: decodes a base64 field, or
/// fails exactly on fields the standard alphabet rejects.
#[verifier::external_body]
fn b64_decode(s: &Vec<u8>) -> (r: Result<Vec<u8>, TokenError>)
    ensures
        r matches Ok(v) ==> base64_decoded(s@) == Some(v@),
        r matches Err(e) ==> base64_decoded(s@) is None && e == TokenError::BadDictLine,
{
    match base64::Engine::decode(&base64::engine::general_purpose::STANDARD, s.as_slice()) {
        Ok(v) => Ok(v),
        Err(_) => Err(TokenError::BadDictLine),
    }
}

/// One line of a vocabulary table: `None` is a malformed line, `Some(None)`
/// a blank line, `Some(Some(entry))` a parsed entry.
pub open spec fn parse_line(line: Seq<u8>) -> Option<Option<(Seq<u8>, int)>> {
    let l = strip_cr(line);
    if all_ws(l) {
        Some(None)
    } else if space_count(l) != 1 {
        None
    } else {
        let k = first_space(l, 0);
        let tok = base64_decoded(l.subrange(0, k));
        let rank = l.subrange(k + 1, l.len() as int);
        match tok {
            None => None,
            Some(t) => if all_digits(rank) && digits_value(rank) <= isize::MAX as int {
                Some(Some((t, digits_value(rank))))
            } else {
                None
            },
        }
    }
}

/// All entries of a table from byte offset `i` on, in line order; `None` on
/// the first malformed line.
pub open spec fn spec_parse_entries(s: Seq<u8>, i: int) -> Option<Seq<(Seq<u8>, int)>>
    decreases s.len() - i + 1,
{
    if i > s.len() || i < 0 {
        Some(Seq::<(Seq<u8>, int)>::empty())
    } else {
        let jn = next_nl(s, i);
        let j = if jn < i {
            i
        } else if jn > s.len() {
            s.len() as int
        } else {
            jn
        };
        let line = s.subrange(i, j);
        let rest = spec_parse_entries(s, j + 1);
        match parse_line(line) {
            None => None,
            Some(None) => rest,
            Some(Some(e)) => match rest {
                None => None,
                Some(es) => Some(seq![e] + es),
            },
        }
    }
}

proof fn lemma_digits_nonneg(s: Seq<u8>)
    requires
        forall|i: int| 0 <= i < s.len() ==> is_digit(#[trigger] s[i]),
    ensures
        digits_value(s) >= 0,
    decreases s.len(),
{
    if s.len() > 0 {
        lemma_digits_nonneg(s.drop_last());
    }
}

/// A longer digit string has at least ten times the value of a proper
/// prefix, so an overflowing prefix means an overflowing value.
proof fn lemma_digits_grow(s: Seq<u8>, t: int)
    requires
        forall|i: int| 0 <= i < s.len() ==> is_digit(#[trigger] s[i]),
        0 <= t < s.len(),
    ensures
        digits_value(s) >= digits_value(s.take(t)) * 10,
        digits_value(s) >= digits_value(s.take(t + 1)),
    decreases s.len() - t,
{
    lemma_digits_nonneg(s.take(t));
    assert(s.take(t + 1).drop_last() =~= s.take(t));
    assert(s.take(t + 1).last() == s[t]);
    if t + 1 == s.len() {
        assert(s.take(t + 1) =~= s);
    } else {
        lemma_digits_grow(s, t + 1);
        lemma_digits_nonneg(s.take(t + 1));
    }
}

/// Whether every byte of a line is whitespace.
fn is_blank_line(v: &Vec<u8>) -> (r: bool)
    ensures
        r == all_ws(v@),
{
    let n = v.len();
    let mut t: usize = 0;
    while t < n
        invariant
            t <= n,
            n == v@.len(),
            forall|q: int| 0 <= q < t ==> is_ws_byte(#[trigger] v@[q]),
        decreases n - t,
    {
        let b = v[t];
        if !(b == 32 || b == 9 || b == 13 || b == 10 || b == 11 || b == 12) {
            proof {
                assert(!is_ws_byte(v@[t as int]));
            }
            return false;
        }
        t = t + 1;
    }
    true
}

/// Parse a rank field: a plain decimal number that fits the rank type.
fn parse_rank(v: &Vec<u8>) -> (r: Result<isize, TokenError>)
    ensures
        r matches Ok(x) ==> all_digits(v@) && digits_value(v@) == x as int && 0 <= x,
        r matches Err(e) ==> e == TokenError::BadDictLine && !(all_digits(v@) && digits_value(v@)
            <= isize::MAX as int),
{
    let n = v.len();
    if n == 0 {
        return Err(TokenError::BadDictLine);
    }
    let mut acc: isize = 0;
    let mut t: usize = 0;
    proof {
        assert(v@.take(0) =~= Seq::<u8>::empty());
    }
    while t < n
        invariant
            t <= n,
            n == v@.len(),
            0 <= acc,
            acc as int == digits_value(v@.take(t as int)),
            forall|i: int| 0 <= i < t ==> is_digit(#[trigger] v@[i]),
        decreases n - t,
    {
        let b = v[t];
        if !(48 <= b && b <= 57) {
            return Err(TokenError::BadDictLine);
        }
        let d = (b - 48) as isize;
        let next = match acc.checked_mul(10) {
            Some(x) => x.checked_add(d),
            None => None,
        };
        let x = match next {
            Some(x) => x,
            None => {
                proof {
                    assert(digits_value(v@.take(t + 1)) == acc as int * 10 + d as int) by {
                        assert(v@.take(t + 1).drop_last() =~= v@.take(t as int));
                        assert(v@.take(t + 1).last() == v@[t as int]);
                    }
                    assert(acc as int * 10 + d as int > isize::MAX as int);
                    if all_digits(v@) {
                        if t + 1 < v@.len() {
                            lemma_digits_grow(v@, t + 1);
                        } else {
                            assert(v@.take(t + 1) =~= v@);
                        }
                    }
                }
                return Err(TokenError::BadDictLine);
            },
        };
        acc = x;
        proof {
            assert(v@.take(t + 1).drop_last() =~= v@.take(t as int));
            assert(v@.take(t + 1).last() == v@[t as int]);
        }
        t = t + 1;
    }
    proof {
        assert(v@.take(n as int) =~= v@);
    }
    Ok(acc)
}

/// Parse a whole vocabulary table: one `base64(token) <space> rank` entry
/// per line, blank lines ignored, anything else a fatal load error.
pub fn parse_dict_data(contents: &Vec<u8>) -> (r: Result<Vocab, TokenError>)
    requires
        contents@.len() < usize::MAX,
    ensures
        r matches Ok(v) ==> spec_parse_entries(contents@, 0) == Some(v.entry_seq()),
        r matches Err(e) ==> spec_parse_entries(contents@, 0) is None && e
            == TokenError::BadDictLine,
{
    let ghost s = contents@;
    let n = contents.len();
    let mut vocab = Vocab::new();
    let mut i: usize = 0;
    proof {
        if spec_parse_entries(s, 0) is Some {
            let es0 = spec_parse_entries(s, 0).unwrap();
            assert(Seq::<(Seq<u8>, int)>::empty() + es0 =~= es0);
        }
    }
    while i <= n
        invariant
            n == s.len(),
            s == contents@,
            n < usize::MAX,
            i <= n + 1,
            spec_parse_entries(s, 0) == (match spec_parse_entries(s, i as int) {
                None => None::<Seq<(Seq<u8>, int)>>,
                Some(es) => Some(vocab.entry_seq() + es),
            }),
        decreases n + 1 - i,
    {
        let ghost entry_vocab = vocab.entry_seq();
        // find the end of the line
        let mut j: usize = i;
        while j < n && contents[j] != 10
            invariant
                i <= j <= n,
                n == s.len(),
                s == contents@,
                next_nl(s, i as int) == next_nl(s, j as int),
            decreases n - j,
        {
            j = j + 1;
        }
        proof {
            assert(next_nl(s, i as int) == j);
        }
        let mut line = sub_bytes(contents, i, j);
        let ghost raw_line = line@;
        if line.len() > 0 && line[line.len() - 1] == 13 {
            line.pop();
        }
        proof {
            if raw_line.len() > 0 && raw_line.last() == 13 {
                assert(line@ =~= strip_cr(raw_line));
            } else {
                assert(line@ == strip_cr(raw_line));
            }
        }
        let ll = line.len();
        if is_blank_line(&line) {
            proof {
                assert(all_ws(line@));
            }
        } else {
            // count spaces and find the first
            let mut spaces: usize = 0;
            let mut k: usize = ll;
            let mut u: usize = 0;
            proof {
                assert(line@.take(0) =~= Seq::<u8>::empty());
            }
            while u < ll
                invariant
                    u <= ll,
                    ll == line@.len(),
                    spaces <= u,
                    spaces as int == space_count(line@.take(u as int)),
                    (spaces == 0) <==> (k == ll),
                    (k == ll && first_space(line@, 0) == first_space(line@, u as int)) || (k < u
                        && k as int == first_space(line@, 0)),
                decreases ll - u,
            {
                let b = line[u];
                proof {
                    assert(line@.take(u + 1).drop_last() =~= line@.take(u as int));
                    assert(line@.take(u + 1).last() == line@[u as int]);
                    if b == 32 && k == ll {
                        assert(first_space(line@, u as int) == u);
                    }
                    if b != 32 {
                        assert(first_space(line@, u as int) == first_space(line@, u + 1));
                    }
                }
                if b == 32 {
                    spaces = spaces + 1;
                    if k == ll {
                        k = u;
                    }
                }
                u = u + 1;
            }
            proof {
                assert(line@.take(ll as int) =~= line@);
                if k == ll {
                    assert(first_space(line@, ll as int) == ll);
                }
            }
            if spaces != 1 {
                proof {
                    assert(parse_line(raw_line) is None);
                    assert(spec_parse_entries(s, i as int) is None);
                }
                return Err(TokenError::BadDictLine);
            }
            let left = sub_bytes(&line, 0, k);
            let right = sub_bytes(&line, k + 1, ll);
            let token = match b64_decode(&left) {
                Ok(tk) => tk,
                Err(e) => {
                    proof {
                        assert(parse_line(raw_line) is None);
                        assert(spec_parse_entries(s, i as int) is None);
                    }
                    return Err(e);
                },
            };
            let rank = match parse_rank(&right) {
                Ok(x) => x,
                Err(e) => {
                    proof {
                        assert(parse_line(raw_line) is None);
                        assert(spec_parse_entries(s, i as int) is None);
                    }
                    return Err(e);
                },
            };
            vocab.insert(token, rank);
            proof {
                assert(parse_line(raw_line) == Some(Some((token@, rank as int))));
            }
        }
        proof {
            let rest = spec_parse_entries(s, j + 1);
            match parse_line(raw_line) {
                None => {},
                Some(None) => {},
                Some(Some(e)) => {
                    match rest {
                        None => {},
                        Some(es) => {
                            assert((entry_vocab.push((e.0, e.1))) + es =~= entry_vocab + (seq![
                                (e.0, e.1),
                            ] + es));
                            assert(vocab.entry_seq() == entry_vocab.push((e.0, e.1)));
                        },
                    }
                },
            }
        }
        i = j + 1;
    }
    proof {
        assert(spec_parse_entries(s, i as int) == Some(Seq::<(Seq<u8>, int)>::empty()));
        assert(vocab.entry_seq() + Seq::<(Seq<u8>, int)>::empty() =~= vocab.entry_seq());
    }
    Ok(vocab)
}

} // verus!

verus! {

/// The special tokens of each table, in construction order, with their ids.
pub open spec fn dict_specials(d: Dict) -> Seq<(Seq<u8>, int)> {
    match d {
        Dict::Cl100kBase => seq![
            (encode_utf8("<|endoftext|>"@), 100257int),
            (encode_utf8("<|fim_prefix|>"@), 100258int),
            (encode_utf8("<|fim_middle|>"@), 100259int),
            (encode_utf8("<|fim_suffix|>"@), 100260int),
            (encode_utf8("<|endofprompt|>"@), 100276int),
        ],
        Dict::P50kBase => seq![(encode_utf8("<|endoftext|>"@), 50256int)],
        Dict::P50kEdit => seq![
            (encode_utf8("<|endoftext|>"@), 50256int),
            (encode_utf8("<|fim_prefix|>"@), 50281int),
            (encode_utf8("<|fim_middle|>"@), 50282int),
            (encode_utf8("<|fim_suffix|>"@), 50283int),
        ],
        Dict::R50kBase => seq![(encode_utf8("<|endoftext|>"@), 50256int)],
    }
}

/// The explicit vocabulary size each table declares; zero when none is.
pub open spec fn dict_vocab_size(d: Dict) -> int {
    match d {
        Dict::Cl100kBase => 0,
        Dict::P50kBase => 50281,
        Dict::P50kEdit => 0,
        Dict::R50kBase => 50257,
    }
}

/// One loaded model configuration: the merge table, the special tokens and
/// the segmentation pattern's table.
pub struct Encoding {
    pub dict: Dict,
    pub merging_ranks: Vocab,
    pub special_tokens: Vocab,
    pub explicit_vocab_size: isize,
}

/// Insert one special-token literal with its id.
fn insert_special(v: &mut Vocab, t: SpecialToken, id: isize)
    requires
        0 <= id,
    ensures
        final(v)@ == old(v)@.insert(encode_utf8(t.spec_literal()), id as int),
        final(v).entry_seq() == old(v).entry_seq().push((encode_utf8(t.spec_literal()), id as int)),
{
    let s = t.to_string();
    let b = s.as_str().as_bytes_vec();
    v.insert(b, id);
}

impl Encoding {
    /// Load a configuration: parse the table bytes and attach the dict's
    /// special tokens and vocabulary size.
    pub fn get_by_dict(dict: &Dict, dict_data: &Vec<u8>) -> (r: Result<Encoding, TokenError>)
        requires
            dict_data@.len() < usize::MAX,
        ensures
            r matches Ok(enc) ==> {
                &&& enc.dict == *dict
                &&& spec_parse_entries(dict_data@, 0) == Some(enc.merging_ranks.entry_seq())
                &&& enc.special_tokens.entry_seq() == dict_specials(*dict)
                &&& enc.explicit_vocab_size as int == dict_vocab_size(*dict)
            },
            r matches Err(e) ==> e == TokenError::BadDictLine && spec_parse_entries(
                dict_data@,
                0,
            ) is None,
    {
        let merging_ranks = match parse_dict_data(dict_data) {
            Ok(v) => v,
            Err(e) => {
                return Err(e);
            },
        };
        let mut special_tokens = Vocab::new();
        let mut explicit_vocab_size: isize = 0;
        match dict {
            Dict::Cl100kBase => {
                insert_special(&mut special_tokens, SpecialToken::EndOfText, 100257);
                insert_special(&mut special_tokens, SpecialToken::FimPrefix, 100258);
                insert_special(&mut special_tokens, SpecialToken::FimMiddle, 100259);
                insert_special(&mut special_tokens, SpecialToken::FimSuffix, 100260);
                insert_special(&mut special_tokens, SpecialToken::EndOfPrompt, 100276);
            },
            Dict::P50kBase => {
                insert_special(&mut special_tokens, SpecialToken::EndOfText, 50256);
                explicit_vocab_size = 50281;
            },
            Dict::P50kEdit => {
                insert_special(&mut special_tokens, SpecialToken::EndOfText, 50256);
                insert_special(&mut special_tokens, SpecialToken::FimPrefix, 50281);
                insert_special(&mut special_tokens, SpecialToken::FimMiddle, 50282);
                insert_special(&mut special_tokens, SpecialToken::FimSuffix, 50283);
            },
            Dict::R50kBase => {
                insert_special(&mut special_tokens, SpecialToken::EndOfText, 50256);
                explicit_vocab_size = 50257;
            },
        }
        proof {
            assert(special_tokens.entry_seq() =~= dict_specials(*dict));
        }
        Ok(Encoding { dict: *dict, merging_ranks, special_tokens, explicit_vocab_size })
    }

    /// Resolve a model name to its table by prefix and load it.
    pub fn get_by_chat_model(chat_model_name: &str, dict_data: &Vec<u8>) -> (r: Result<
        Encoding,
        TokenError,
    >)
        requires
            dict_data@.len() < usize::MAX,
        ensures
            r matches Ok(enc) ==> {
                &&& (is_prefix(chat_model_name@, "gpt-3.5"@) || is_prefix(
                    chat_model_name@,
                    "gpt-4"@,
                ))
                &&& enc.dict == Dict::Cl100kBase
                &&& spec_parse_entries(dict_data@, 0) == Some(enc.merging_ranks.entry_seq())
                &&& enc.special_tokens.entry_seq() == dict_specials(Dict::Cl100kBase)
            },
            r matches Err(e) ==> match e {
                TokenError::UnknownModel => !is_prefix(chat_model_name@, "gpt-3.5"@) && !is_prefix(
                    chat_model_name@,
                    "gpt-4"@,
                ),
                TokenError::BadDictLine => spec_parse_entries(dict_data@, 0) is None,
                _ => false,
            },
    {
        let prefix = match ChatModelPrefix::get_by_name(chat_model_name) {
            Ok(p) => p,
            Err(e) => {
                return Err(e);
            },
        };
        let dict = match prefix {
            ChatModelPrefix::Gpt3dot5 => Dict::Cl100kBase,
            ChatModelPrefix::Gpt4 => Dict::Cl100kBase,
        };
        Encoding::get_by_dict(&dict, dict_data)
    }
}

} // verus!
