pub mod vocab;
pub mod bpe;
pub mod pattern;
pub mod engine;
pub mod encoding;
pub mod price;

use vstd::prelude::*;

use crate::bpe::TokenError;
use crate::encoding::{dict_specials, is_prefix, spec_parse_entries, Dict, Encoding};
use crate::engine::{spec_encode_from, special_pattern, CoreBpe};
use crate::pattern::pcre2_compiles;
use crate::vocab::assoc_as_map;

verus! {

use vstd::string::StringSliceAdditionalSpecFns;
use vstd::utf8::encode_utf8;

/// The largest token count the counting API reports.
pub const MAX_COUNT: isize = 1000000000;

/// A chat call to be counted: the model name and the messages.
pub struct ChatRequest {
    pub model: String,
    pub messages: Vec<ChatMessage>,
}

pub struct ChatMessage {
    pub role: String,
    pub content: String,
    pub name: Option<String>,
}

/// The tokens a configuration produces for a text: the merge table and the
/// special tokens as entry sequences, the segmentation pattern as text.
pub open spec fn spec_tokens_for(
    entries: Seq<(Seq<u8>, int)>,
    specials: Seq<(Seq<u8>, int)>,
    pat: Seq<char>,
    text: Seq<char>,
) -> Option<(Seq<int>, int)> {
    spec_encode_from(
        assoc_as_map(entries),
        assoc_as_map(specials),
        encode_utf8(pat),
        true,
        if specials.len() == 0 {
            None
        } else {
            Some(special_pattern(specials))
        },
        false,
        encode_utf8(text),
        0,
        0,
    )
}

/// The token count of one message: a three-token frame, the role and content
/// tokens, and one more token with the name's tokens when a name is set.
pub open spec fn spec_message_count(
    entries: Seq<(Seq<u8>, int)>,
    specials: Seq<(Seq<u8>, int)>,
    pat: Seq<char>,
    m: ChatMessage,
) -> Option<int> {
    let role = spec_tokens_for(entries, specials, pat, m.role@);
    let content = spec_tokens_for(entries, specials, pat, m.content@);
    match (role, content) {
        (Some(r0), Some(c0)) => {
            let base = 3 + r0.0.len() + c0.0.len();
            match m.name {
                None => Some(base as int),
                Some(nm) => match spec_tokens_for(entries, specials, pat, nm@) {
                    None => None,
                    Some(n0) => Some(base as int + 1 + n0.0.len()),
                },
            }
        },
        _ => None,
    }
}

/// The token count of the messages from index `i` on.
pub open spec fn spec_messages_count(
    entries: Seq<(Seq<u8>, int)>,
    specials: Seq<(Seq<u8>, int)>,
    pat: Seq<char>,
    ms: Seq<ChatMessage>,
    i: int,
) -> Option<int>
    decreases ms.len() - i,
{
    if i < 0 || i >= ms.len() {
        Some(0)
    } else {
        match (
            spec_message_count(entries, specials, pat, ms[i]),
            spec_messages_count(entries, specials, pat, ms, i + 1),
        ) {
            (Some(a), Some(b)) => Some(a + b),
            _ => None,
        }
    }
}

/// The token count of a whole request: a three-token frame plus every
/// message's count.
pub open spec fn spec_request_count(
    entries: Seq<(Seq<u8>, int)>,
    specials: Seq<(Seq<u8>, int)>,
    pat: Seq<char>,
    ms: Seq<ChatMessage>,
) -> Option<int> {
    match spec_messages_count(entries, specials, pat, ms, 0) {
        None => None,
        Some(c) => Some(3 + c),
    }
}

/// Every message contributes a non-negative count.
proof fn lemma_messages_count_nonneg(
    entries: Seq<(Seq<u8>, int)>,
    specials: Seq<(Seq<u8>, int)>,
    pat: Seq<char>,
    ms: Seq<ChatMessage>,
    i: int,
)
    ensures
        spec_messages_count(entries, specials, pat, ms, i) matches Some(c) ==> c >= 0,
    decreases ms.len() - i,
{
    if 0 <= i < ms.len() {
        lemma_messages_count_nonneg(entries, specials, pat, ms, i + 1);
    }
}

/// When the message being counted fails or already pushes the running count
/// past the cap, the whole request's count fails or exceeds the cap.
proof fn lemma_request_over(
    entries: Seq<(Seq<u8>, int)>,
    specials: Seq<(Seq<u8>, int)>,
    pat: Seq<char>,
    ms: Seq<ChatMessage>,
    k: int,
    count: int,
)
    requires
        0 <= k < ms.len(),
        count >= 3,
        spec_messages_count(entries, specials, pat, ms, 0) == (match spec_messages_count(
            entries,
            specials,
            pat,
            ms,
            k,
        ) {
            None => None::<int>,
            Some(b) => Some((count - 3) + b),
        }),
        spec_message_count(entries, specials, pat, ms[k]) is None || count + spec_message_count(
            entries,
            specials,
            pat,
            ms[k],
        ).unwrap() > MAX_COUNT as int,
    ensures
        spec_request_count(entries, specials, pat, ms) is None || spec_request_count(
            entries,
            specials,
            pat,
            ms,
        ).unwrap() > MAX_COUNT as int,
{
    lemma_messages_count_nonneg(entries, specials, pat, ms, k + 1);
}

/// Build the engine for a loaded configuration: it succeeds exactly when
/// the dict's segmentation pattern and the special alternation compile.
fn build_bpe(enc: Encoding) -> (r: Result<CoreBpe, TokenError>)
    ensures
        (r is Ok) == (pcre2_compiles(encode_utf8(enc.dict.spec_regex_pattern()), true) && (
        enc.special_tokens.entry_seq().len() == 0 || pcre2_compiles(
            special_pattern(enc.special_tokens.entry_seq()),
            false,
        ))),
        r matches Ok(b) ==> {
            &&& b.encoder_map() == assoc_as_map(enc.merging_ranks.entry_seq())
            &&& b.specials_map() == assoc_as_map(enc.special_tokens.entry_seq())
            &&& b.pat() == encode_utf8(enc.dict.spec_regex_pattern())
            &&& b.pat_unicode() == true
            &&& b.spat() == (if enc.special_tokens.entry_seq().len() == 0 {
                None::<Seq<u8>>
            } else {
                Some(special_pattern(enc.special_tokens.entry_seq()))
            })
            &&& b.spat_unicode() == false
        },
        r matches Err(e) ==> e == TokenError::InvalidPattern,
{
    let pattern = enc.dict.get_regex_pattern();
    proof {
        enc.merging_ranks.lemma_view();
        enc.special_tokens.lemma_view();
    }
    CoreBpe::new(enc.merging_ranks, enc.special_tokens, pattern)
}

/// Tokenize one text with a built engine and report the token count, capped
/// at `MAX_COUNT`.
fn encode_count(
    bpe: &CoreBpe,
    s: &str,
    Ghost(es): Ghost<Seq<(Seq<u8>, int)>>,
    Ghost(sps): Ghost<Seq<(Seq<u8>, int)>>,
    Ghost(pt): Ghost<Seq<char>>,
) -> (r: Result<usize, TokenError>)
    requires
        bpe.encoder_map() == assoc_as_map(es),
        bpe.specials_map() == assoc_as_map(sps),
        bpe.pat() == encode_utf8(pt),
        bpe.pat_unicode() == true,
        bpe.spat() == (if sps.len() == 0 {
            None::<Seq<u8>>
        } else {
            Some(special_pattern(sps))
        }),
        bpe.spat_unicode() == false,
    ensures
        r matches Ok(l) ==> spec_tokens_for(es, sps, pt, s@) matches Some(rr) && l as int
            == rr.0.len() && l as int <= MAX_COUNT as int,
        r matches Err(e) ==> match e {
            TokenError::MissingVocabEntry => spec_tokens_for(es, sps, pt, s@) is None,
            TokenError::Overflow => spec_tokens_for(es, sps, pt, s@) matches Some(rr)
                && rr.0.len() > MAX_COUNT as int,
            TokenError::MatchFailed => true,
            _ => false,
        },
{
    proof {
        assert(spec_tokens_for(es, sps, pt, s@) == bpe.spec_encode(s.spec_bytes()));
    }
    match bpe.encode_native(s) {
        Ok(o) => {
            let l = o.0.len();
            if l > 1000000000 {
                return Err(TokenError::Overflow);
            }
            Ok(l)
        },
        Err(e) => Err(e),
    }
}

/// Count the tokens of a text for a chat model: resolve the model's table,
/// build the engine, tokenize, and report the token count.
pub fn count_text(chat_model_name: &str, text: &str, dict_data: &Vec<u8>) -> (r: Result<
    isize,
    TokenError,
>)
    requires
        dict_data@.len() < usize::MAX,
    ensures
        r matches Ok(c) ==> ({
            &&& spec_parse_entries(dict_data@, 0) matches Some(es) && spec_tokens_for(
                es,
                dict_specials(Dict::Cl100kBase),
                Dict::Cl100kBase.spec_regex_pattern(),
                text@,
            ) matches Some(rr) && c as int == rr.0.len() && rr.0.len() <= MAX_COUNT as int
            &&& (is_prefix(chat_model_name@, "gpt-3.5"@) || is_prefix(chat_model_name@, "gpt-4"@))
        }),
        r matches Err(e) ==> match e {
            TokenError::UnknownModel => !is_prefix(chat_model_name@, "gpt-3.5"@) && !is_prefix(
                chat_model_name@,
                "gpt-4"@,
            ),
            TokenError::BadDictLine => spec_parse_entries(dict_data@, 0) is None,
            TokenError::MissingVocabEntry => spec_parse_entries(dict_data@, 0) matches Some(es)
                && spec_tokens_for(
                es,
                dict_specials(Dict::Cl100kBase),
                Dict::Cl100kBase.spec_regex_pattern(),
                text@,
            ) is None,
            TokenError::Overflow => spec_parse_entries(dict_data@, 0) matches Some(es)
                && spec_tokens_for(
                es,
                dict_specials(Dict::Cl100kBase),
                Dict::Cl100kBase.spec_regex_pattern(),
                text@,
            ) matches Some(rr) && rr.0.len() > MAX_COUNT as int,
            TokenError::InvalidPattern => !pcre2_compiles(
                encode_utf8(Dict::Cl100kBase.spec_regex_pattern()),
                true,
            ) || !pcre2_compiles(special_pattern(dict_specials(Dict::Cl100kBase)), false),
            TokenError::MatchFailed => true,
        },
{
    let enc = match Encoding::get_by_chat_model(chat_model_name, dict_data) {
        Ok(x) => x,
        Err(e) => {
            return Err(e);
        },
    };
    let ghost es = enc.merging_ranks.entry_seq();
    let bpe = match build_bpe(enc) {
        Ok(b) => b,
        Err(e) => {
            return Err(e);
        },
    };
    let cnt = match encode_count(
        &bpe,
        text,
        Ghost(es),
        Ghost(dict_specials(Dict::Cl100kBase)),
        Ghost(Dict::Cl100kBase.spec_regex_pattern()),
    ) {
        Ok(l) => l,
        Err(e) => {
            return Err(e);
        },
    };
    Ok(cnt as isize)
}

/// Count the tokens of one message: three tokens plus its role and content
/// tokens, plus one token and the name's tokens when a name is set.
#[verifier::rlimit(100)]
fn count_message(
    bpe: &CoreBpe,
    m: &ChatMessage,
    Ghost(es): Ghost<Seq<(Seq<u8>, int)>>,
    Ghost(sps): Ghost<Seq<(Seq<u8>, int)>>,
    Ghost(pt): Ghost<Seq<char>>,
) -> (r: Result<isize, TokenError>)
    requires
        bpe.encoder_map() == assoc_as_map(es),
        bpe.specials_map() == assoc_as_map(sps),
        bpe.pat() == encode_utf8(pt),
        bpe.pat_unicode() == true,
        bpe.spat() == (if sps.len() == 0 {
            None::<Seq<u8>>
        } else {
            Some(special_pattern(sps))
        }),
        bpe.spat_unicode() == false,
    ensures
        r matches Ok(mc) ==> spec_message_count(es, sps, pt, *m) == Some(mc as int) && 0 <= mc
            <= MAX_COUNT,
        r matches Err(e) ==> match e {
            TokenError::MissingVocabEntry => spec_message_count(es, sps, pt, *m) is None,
            TokenError::Overflow => spec_message_count(es, sps, pt, *m) is None
                || spec_message_count(es, sps, pt, *m).unwrap() > MAX_COUNT as int,
            TokenError::MatchFailed => true,
            _ => false,
        },
{
    let rl = match encode_count(bpe, m.role.as_str(), Ghost(es), Ghost(sps), Ghost(pt)) {
        Ok(l) => l,
        Err(e) => {
            proof {
                if e == TokenError::Overflow {
                    assert(spec_message_count(es, sps, pt, *m) is None || spec_message_count(
                        es,
                        sps,
                        pt,
                        *m,
                    ).unwrap() > MAX_COUNT as int);
                }
            }
            return Err(e);
        },
    };
    let cl = match encode_count(bpe, m.content.as_str(), Ghost(es), Ghost(sps), Ghost(pt)) {
        Ok(l) => l,
        Err(e) => {
            proof {
                if e == TokenError::Overflow {
                    assert(spec_message_count(es, sps, pt, *m) is None || spec_message_count(
                        es,
                        sps,
                        pt,
                        *m,
                    ).unwrap() > MAX_COUNT as int);
                }
            }
            return Err(e);
        },
    };
    let mut mcount: isize = 3 + (rl as isize) + (cl as isize);
    if mcount > 1000000000 {
        proof {
            assert(spec_message_count(es, sps, pt, *m) is None || spec_message_count(
                es,
                sps,
                pt,
                *m,
            ).unwrap() >= mcount as int);
        }
        return Err(TokenError::Overflow);
    }
    match &m.name {
        Some(nm) => {
            let nl = match encode_count(bpe, nm.as_str(), Ghost(es), Ghost(sps), Ghost(pt)) {
                Ok(l) => l,
                Err(e) => {
                    proof {
                        if e == TokenError::Overflow {
                            assert(spec_message_count(es, sps, pt, *m) is None
                                || spec_message_count(es, sps, pt, *m).unwrap()
                                > MAX_COUNT as int);
                        }
                    }
                    return Err(e);
                },
            };
            mcount = mcount + 1 + (nl as isize);
            if mcount > 1000000000 {
                proof {
                    assert(spec_message_count(es, sps, pt, *m) == Some(mcount as int));
                }
                return Err(TokenError::Overflow);
            }
        },
        None => {},
    }
    proof {
        assert(spec_message_count(es, sps, pt, *m) == Some(mcount as int));
    }
    Ok(mcount)
}

/// Count the tokens of a sequence of messages plus the request frame.
#[verifier::rlimit(100)]
fn count_messages(
    bpe: &CoreBpe,
    messages: &Vec<ChatMessage>,
    Ghost(es): Ghost<Seq<(Seq<u8>, int)>>,
    Ghost(sps): Ghost<Seq<(Seq<u8>, int)>>,
    Ghost(pt): Ghost<Seq<char>>,
) -> (r: Result<isize, TokenError>)
    requires
        bpe.encoder_map() == assoc_as_map(es),
        bpe.specials_map() == assoc_as_map(sps),
        bpe.pat() == encode_utf8(pt),
        bpe.pat_unicode() == true,
        bpe.spat() == (if sps.len() == 0 {
            None::<Seq<u8>>
        } else {
            Some(special_pattern(sps))
        }),
        bpe.spat_unicode() == false,
    ensures
        r matches Ok(c) ==> spec_request_count(es, sps, pt, messages@) == Some(c as int) && 3 <= c
            <= MAX_COUNT,
        r matches Err(e) ==> match e {
            TokenError::MissingVocabEntry => spec_request_count(es, sps, pt, messages@) is None,
            TokenError::Overflow => spec_request_count(es, sps, pt, messages@) is None
                || spec_request_count(es, sps, pt, messages@).unwrap() > MAX_COUNT as int,
            TokenError::MatchFailed => true,
            _ => false,
        },
{
    let ghost ms = messages@;
    let mut count: isize = 3;
    let nmsg = messages.len();
    let mut k: usize = 0;
    while k < nmsg
        invariant
            nmsg == ms.len(),
            ms == messages@,
            k <= nmsg,
            3 <= count <= MAX_COUNT,
            bpe.encoder_map() == assoc_as_map(es),
            bpe.specials_map() == assoc_as_map(sps),
            bpe.pat() == encode_utf8(pt),
            bpe.pat_unicode() == true,
            bpe.spat() == (if sps.len() == 0 {
                None::<Seq<u8>>
            } else {
                Some(special_pattern(sps))
            }),
            bpe.spat_unicode() == false,
            spec_messages_count(es, sps, pt, ms, 0) == (match spec_messages_count(
                es,
                sps,
                pt,
                ms,
                k as int,
            ) {
                None => None::<int>,
                Some(b) => Some((count - 3) + b),
            }),
        decreases nmsg - k,
    {
        let ghost count0 = count as int;
        let m = &messages[k];
        let mc = match count_message(bpe, m, Ghost(es), Ghost(sps), Ghost(pt)) {
            Ok(v) => v,
            Err(e) => {
                proof {
                    if e == TokenError::MissingVocabEntry {
                        assert(spec_messages_count(es, sps, pt, ms, k as int) is None);
                    }
                    if e == TokenError::Overflow {
                        lemma_request_over(es, sps, pt, ms, k as int, count0);
                    }
                }
                return Err(e);
            },
        };
        if count + mc > 1000000000 {
            proof {
                lemma_request_over(es, sps, pt, ms, k as int, count0);
            }
            return Err(TokenError::Overflow);
        }
        proof {
            lemma_messages_count_nonneg(es, sps, pt, ms, k + 1);
        }
        count = count + mc;
        k = k + 1;
    }
    Ok(count)
}

/// Count the tokens of a whole chat request: a three-token frame for the
/// request, and for each message three tokens plus its role and content
/// tokens, plus one token and the name's tokens when a name is set.
pub fn count_request(request: &ChatRequest, dict_data: &Vec<u8>) -> (r: Result<isize, TokenError>)
    requires
        dict_data@.len() < usize::MAX,
    ensures
        r matches Ok(c) ==> ({
            &&& spec_parse_entries(dict_data@, 0) matches Some(es) && spec_request_count(
                es,
                dict_specials(Dict::Cl100kBase),
                Dict::Cl100kBase.spec_regex_pattern(),
                request.messages@,
            ) == Some(c as int) && c <= MAX_COUNT
            &&& (is_prefix(request.model@, "gpt-3.5"@) || is_prefix(request.model@, "gpt-4"@))
        }),
        r matches Err(e) ==> match e {
            TokenError::UnknownModel => !is_prefix(request.model@, "gpt-3.5"@) && !is_prefix(
                request.model@,
                "gpt-4"@,
            ),
            TokenError::BadDictLine => spec_parse_entries(dict_data@, 0) is None,
            TokenError::MissingVocabEntry => spec_parse_entries(dict_data@, 0) matches Some(es)
                && spec_request_count(
                es,
                dict_specials(Dict::Cl100kBase),
                Dict::Cl100kBase.spec_regex_pattern(),
                request.messages@,
            ) is None,
            TokenError::Overflow => spec_parse_entries(dict_data@, 0) matches Some(es) && (
            spec_request_count(
                es,
                dict_specials(Dict::Cl100kBase),
                Dict::Cl100kBase.spec_regex_pattern(),
                request.messages@,
            ) is None || spec_request_count(
                es,
                dict_specials(Dict::Cl100kBase),
                Dict::Cl100kBase.spec_regex_pattern(),
                request.messages@,
            ).unwrap() > MAX_COUNT as int),
            TokenError::InvalidPattern => !pcre2_compiles(
                encode_utf8(Dict::Cl100kBase.spec_regex_pattern()),
                true,
            ) || !pcre2_compiles(special_pattern(dict_specials(Dict::Cl100kBase)), false),
            TokenError::MatchFailed => true,
        },
{
    let enc = match Encoding::get_by_chat_model(request.model.as_str(), dict_data) {
        Ok(x) => x,
        Err(e) => {
            return Err(e);
        },
    };
    let ghost es = enc.merging_ranks.entry_seq();
    let ghost sps = dict_specials(Dict::Cl100kBase);
    let ghost pt = Dict::Cl100kBase.spec_regex_pattern();
    let bpe = match build_bpe(enc) {
        Ok(b) => b,
        Err(e) => {
            return Err(e);
        },
    };
    match count_messages(&bpe, &request.messages, Ghost(es), Ghost(sps), Ghost(pt)) {
        Ok(c) => Ok(c),
        Err(e) => Err(e),
    }
}

} // verus!
