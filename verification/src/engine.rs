use vstd::prelude::*;

use crate::bpe::{byte_pair_encode, spec_bpe, sub_bytes, TokenError};
use crate::pattern::{
    all_matches_of, build_matcher, chars_to_string, first_match_of, matcher_find, matcher_find_all,
    pcre2_compiles, Matcher,
};
use crate::vocab::Vocab;

verus! {

use vstd::string::StringSliceAdditionalSpecFns;
use vstd::string::StrSliceExecFns;

/// The bytes that carry a meaning in a pattern and are escaped with a
/// backslash when a special-token literal is embedded in the alternation.
pub open spec fn is_meta_byte(b: u8) -> bool {
    b == 92 || b == 46 || b == 43 || b == 42 || b == 63 || b == 40 || b == 41 || b == 124 || b
        == 91 || b == 93 || b == 123 || b == 125 || b == 94 || b == 36 || b == 35 || b == 45
}

/// One byte of a literal, escaped for use inside a pattern.
pub open spec fn escaped_byte(b: u8) -> Seq<u8> {
    if is_meta_byte(b) {
        seq![92u8, b]
    } else {
        seq![b]
    }
}

/// A whole literal, escaped byte for byte.
pub open spec fn escaped_bytes(s: Seq<u8>) -> Seq<u8>
    decreases s.len(),
{
    if s.len() == 0 {
        Seq::<u8>::empty()
    } else {
        escaped_byte(s[0]) + escaped_bytes(s.skip(1))
    }
}

proof fn lemma_escaped_push(s: Seq<u8>, x: u8)
    ensures
        escaped_bytes(s.push(x)) == escaped_bytes(s) + escaped_byte(x),
    decreases s.len(),
{
    let t = s.push(x);
    assert(t.len() == s.len() + 1);
    assert(escaped_bytes(t) == escaped_byte(t[0]) + escaped_bytes(t.skip(1)));
    if s.len() == 0 {
        assert(t[0] == x);
        assert(t.skip(1) =~= Seq::<u8>::empty());
        assert(escaped_bytes(Seq::<u8>::empty()) == Seq::<u8>::empty());
        assert(escaped_byte(x) + Seq::<u8>::empty() =~= escaped_byte(x));
        assert(Seq::<u8>::empty() + escaped_byte(x) =~= escaped_byte(x));
    } else {
        assert(t[0] == s[0]);
        assert(t.skip(1) =~= s.skip(1).push(x));
        lemma_escaped_push(s.skip(1), x);
        assert(escaped_bytes(s) == escaped_byte(s[0]) + escaped_bytes(s.skip(1)));
        assert(escaped_byte(s[0]) + (escaped_bytes(s.skip(1)) + escaped_byte(x)) =~= (escaped_byte(
            s[0],
        ) + escaped_bytes(s.skip(1))) + escaped_byte(x));
    }
}

fn is_meta(b: u8) -> (r: bool)
    ensures
        r == is_meta_byte(b),
{
    b == 92 || b == 46 || b == 43 || b == 42 || b == 63 || b == 40 || b == 41 || b == 124 || b
        == 91 || b == 93 || b == 123 || b == 125 || b == 94 || b == 36 || b == 35 || b == 45
}

/// Escape a special-token literal so it matches itself inside a pattern.
fn escape_key(key: &Vec<u8>) -> (r: Vec<u8>)
    ensures
        r@ == escaped_bytes(key@),
{
    let mut out: Vec<u8> = Vec::new();
    let n = key.len();
    let mut i: usize = 0;
    proof {
        assert(key@.take(0) =~= Seq::<u8>::empty());
    }
    while i < n
        invariant
            i <= n,
            n == key@.len(),
            out@ == escaped_bytes(key@.take(i as int)),
        decreases n - i,
    {
        let ghost pre = out@;
        let b = key[i];
        if is_meta(b) {
            out.push(92);
            out.push(b);
            proof {
                assert(out@ =~= pre + escaped_byte(b));
            }
        } else {
            out.push(b);
            proof {
                assert(out@ =~= pre + escaped_byte(b));
            }
        }
        proof {
            assert(key@.take(i + 1) =~= key@.take(i as int).push(key@[i as int]));
            lemma_escaped_push(key@.take(i as int), key@[i as int]);
        }
        i = i + 1;
    }
    proof {
        assert(key@.take(n as int) =~= key@);
    }
    out
}

/// The alternation pattern of a special-token set: every literal escaped,
/// joined with `|`, in construction order.
pub open spec fn special_pattern(entries: Seq<(Seq<u8>, int)>) -> Seq<u8>
    decreases entries.len(),
{
    if entries.len() == 0 {
        Seq::<u8>::empty()
    } else if entries.len() == 1 {
        escaped_bytes(entries[0].0)
    } else {
        special_pattern(entries.drop_last()) + seq![124u8] + escaped_bytes(entries.last().0)
    }
}

/// Build the alternation pattern over all special-token literals.
fn build_special_pattern(specials: &Vocab) -> (r: Vec<u8>)
    ensures
        r@ == special_pattern(specials.entry_seq()),
{
    let ghost es = specials.entry_seq();
    let mut out: Vec<u8> = Vec::new();
    let n = specials.len();
    let mut i: usize = 0;
    proof {
        assert(es.take(0) =~= Seq::<(Seq<u8>, int)>::empty());
    }
    while i < n
        invariant
            i <= n,
            n == es.len(),
            es == specials.entry_seq(),
            out@ == special_pattern(es.take(i as int)),
        decreases n - i,
    {
        let ghost pre = out@;
        if i > 0 {
            out.push(124);
        }
        let mut esc = escape_key(specials.key_at(i));
        let ghost esc_seq = esc@;
        out.append(&mut esc);
        proof {
            assert(es.take(i + 1).drop_last() =~= es.take(i as int));
            assert(es.take(i + 1).last() == es[i as int]);
            if i == 0 {
                assert(out@ =~= esc_seq);
            } else {
                assert(out@ =~= pre + seq![124u8] + esc_seq);
            }
        }
        i = i + 1;
    }
    proof {
        assert(es.take(n as int) =~= es);
    }
    out
}

/// Tokenize the pieces of one ordinary span: each piece is first tried as a
/// whole-piece vocabulary hit, otherwise byte-pair merged; the result is the
/// token sequence and the unit count of the last piece processed.
pub open spec fn spec_encode_pieces(
    enc: Map<Seq<u8>, int>,
    span: Seq<u8>,
    pieces: Seq<(int, int)>,
    lptl: int,
) -> Option<(Seq<int>, int)>
    decreases pieces.len(),
{
    if pieces.len() == 0 {
        Some((Seq::<int>::empty(), lptl))
    } else {
        let ps = pieces[0].0;
        let pe = pieces[0].1;
        if !(0 <= ps <= pe <= span.len()) {
            spec_encode_pieces(enc, span, pieces.skip(1), lptl)
        } else {
            let pbytes = span.subrange(ps, pe);
            if enc.contains_key(pbytes) {
                match spec_encode_pieces(enc, span, pieces.skip(1), 1) {
                    None => None,
                    Some(r) => Some((seq![enc[pbytes]] + r.0, r.1)),
                }
            } else {
                match spec_bpe(pbytes, enc) {
                    None => None,
                    Some(ts) => match spec_encode_pieces(enc, span, pieces.skip(1), ts.len() as int) {
                        None => None,
                        Some(r) => Some((ts + r.0, r.1)),
                    },
                }
            }
        }
    }
}

/// The whole encoding loop from byte offset `start` on: find the next
/// special-token occurrence, tokenize the ordinary span before it, append
/// the special token's id, and continue after it; `None` is a fatal
/// vocabulary-integrity error.
pub open spec fn spec_encode_from(
    enc: Map<Seq<u8>, int>,
    sp: Map<Seq<u8>, int>,
    pat: Seq<u8>,
    pat_u: bool,
    spat: Option<Seq<u8>>,
    sp_u: bool,
    bytes: Seq<u8>,
    start: int,
    lptl: int,
) -> Option<(Seq<int>, int)>
    decreases bytes.len() - start,
{
    let rest = bytes.subrange(start, bytes.len() as int);
    let fm = if spat is Some {
        first_match_of(spat.unwrap(), sp_u, rest)
    } else {
        None
    };
    let ok = match fm {
        Some(se) => 0 <= start && 0 <= se.0 && se.0 < se.1 && start + se.1 <= bytes.len(),
        None => false,
    };
    let end = if ok {
        start + fm.unwrap().0
    } else {
        bytes.len() as int
    };
    let span = bytes.subrange(start, end);
    let pieces = all_matches_of(pat, pat_u, span);
    match spec_encode_pieces(enc, span, pieces, lptl) {
        None => None,
        Some(r) => {
            if ok {
                let e = start + fm.unwrap().1;
                let stext = bytes.subrange(start + fm.unwrap().0, e);
                if sp.contains_key(stext) {
                    match spec_encode_from(enc, sp, pat, pat_u, spat, sp_u, bytes, e, 0) {
                        None => None,
                        Some(r2) => Some((r.0 + seq![sp[stext]] + r2.0, r2.1)),
                    }
                } else {
                    match spec_encode_from(enc, sp, pat, pat_u, spat, sp_u, bytes, e, r.1) {
                        None => None,
                        Some(r2) => Some((r.0 + r2.0, r2.1)),
                    }
                }
            } else {
                Some(r)
            }
        },
    }
}

proof fn lemma_map_values_concat(a: Seq<isize>, b: Seq<isize>)
    ensures
        (a + b).map_values(|t: isize| t as int) == a.map_values(|t: isize| t as int)
            + b.map_values(|t: isize| t as int),
{
    assert((a + b).map_values(|t: isize| t as int) =~= a.map_values(|t: isize| t as int)
        + b.map_values(|t: isize| t as int));
}

/// The byte-level byte-pair tokenization engine: an ordinary vocabulary, a
/// special-token set, a segmentation matcher, and the special-token
/// alternation matcher built from the escaped literals.
pub struct CoreBpe {
    encoder: Vocab,
    special_tokens_encoder: Vocab,
    tl_regex: Matcher,
    tl_special_regex: Option<Matcher>,
}

impl CoreBpe {
    /// The ordinary token mapping.
    pub closed spec fn encoder_map(&self) -> Map<Seq<u8>, int> {
        self.encoder@
    }

    /// The special-token mapping.
    pub closed spec fn specials_map(&self) -> Map<Seq<u8>, int> {
        self.special_tokens_encoder@
    }

    /// The segmentation pattern text.
    pub closed spec fn pat(&self) -> Seq<u8> {
        self.tl_regex.pattern_view()
    }

    pub closed spec fn pat_unicode(&self) -> bool {
        self.tl_regex.unicode_mode()
    }

    /// The special-token alternation pattern, absent when the set is empty.
    pub closed spec fn spat(&self) -> Option<Seq<u8>> {
        match self.tl_special_regex {
            Some(m) => Some(m.pattern_view()),
            None => None,
        }
    }

    pub closed spec fn spat_unicode(&self) -> bool {
        match self.tl_special_regex {
            Some(m) => m.unicode_mode(),
            None => false,
        }
    }

    /// The token ids and trailing-piece unit count that `encode_native`
    /// produces for a text, as a function of the engine's configuration.
    pub open spec fn spec_encode(&self, bytes: Seq<u8>) -> Option<(Seq<int>, int)> {
        spec_encode_from(
            self.encoder_map(),
            self.specials_map(),
            self.pat(),
            self.pat_unicode(),
            self.spat(),
            self.spat_unicode(),
            bytes,
            0,
            0,
        )
    }

    /// Build an engine from a finished vocabulary, a special-token set and a
    /// segmentation pattern. Construction succeeds exactly when the
    /// segmentation pattern compiles and, for a non-empty special-token set,
    /// the alternation of the escaped literals compiles too.
    pub fn new(encoder: Vocab, special_tokens_encoder: Vocab, pattern: String) -> (r: Result<
        CoreBpe,
        TokenError,
    >)
        ensures
            (r is Ok) == (pcre2_compiles(vstd::utf8::encode_utf8(pattern@), true) && (
            special_tokens_encoder.entry_seq().len() == 0 || pcre2_compiles(
                special_pattern(special_tokens_encoder.entry_seq()),
                false,
            ))),
            r matches Ok(b) ==> {
                &&& b.encoder_map() == encoder@
                &&& b.specials_map() == special_tokens_encoder@
                &&& b.pat() == vstd::utf8::encode_utf8(pattern@)
                &&& b.pat_unicode() == true
                &&& b.spat() == (if special_tokens_encoder.entry_seq().len() == 0 {
                    None::<Seq<u8>>
                } else {
                    Some(special_pattern(special_tokens_encoder.entry_seq()))
                })
                &&& b.spat_unicode() == false
            },
            r matches Err(e) ==> e == TokenError::InvalidPattern,
    {
        let pat_bytes = pattern.as_str().as_bytes_vec();
        let tl_regex = match build_matcher(&pat_bytes, true) {
            Ok(m) => m,
            Err(_) => {
                return Err(TokenError::InvalidPattern);
            },
        };
        let tl_special_regex = if special_tokens_encoder.len() == 0 {
            None
        } else {
            let spat_bytes = build_special_pattern(&special_tokens_encoder);
            match build_matcher(&spat_bytes, false) {
                Ok(m) => Some(m),
                Err(_) => {
                    return Err(TokenError::InvalidPattern);
                },
            }
        };
        Ok(
            CoreBpe {
                encoder,
                special_tokens_encoder,
                tl_regex,
                tl_special_regex,
            },
        )
    }

    /// Tokenize the pieces of one ordinary span, appending to `out`.
    fn encode_span(&self, span: &Vec<u8>, out: &mut Vec<isize>, lptl_in: usize) -> (r: Result<
        usize,
        TokenError,
    >)
        ensures
            match r {
                Ok(l) => ({
                    let ps = all_matches_of(self.pat(), self.pat_unicode(), span@);
                    &&& spec_encode_pieces(self.encoder_map(), span@, ps, lptl_in as int)
                        matches Some(rr) && final(out)@.map_values(|t: isize| t as int) == old(
                        out,
                    )@.map_values(|t: isize| t as int) + rr.0 && l as int == rr.1
                }),
                Err(e) => (e == TokenError::MissingVocabEntry || e == TokenError::MatchFailed)
                    && (e == TokenError::MissingVocabEntry ==> spec_encode_pieces(
                    self.encoder_map(),
                    span@,
                    all_matches_of(self.pat(), self.pat_unicode(), span@),
                    lptl_in as int,
                ) is None),
            },
    {
        let ghost enc = self.encoder_map();
        let ghost pseq = all_matches_of(self.pat(), self.pat_unicode(), span@);
        let pieces = match matcher_find_all(&self.tl_regex, span) {
            Ok(v) => v,
            Err(e) => {
                return Err(e);
            },
        };
        let ghost base = out@;
        let ghost done = Seq::<int>::empty();
        let mut lptl: usize = lptl_in;
        let mut pi: usize = 0;
        let npieces = pieces.len();
        proof {
            assert(pseq.skip(0) =~= pseq);
            assert(base.map_values(|t: isize| t as int) + done =~= base.map_values(
                |t: isize| t as int,
            ));
        }
        let ghost mut done = done;
        while pi < npieces
            invariant
                pi <= npieces,
                npieces == pieces@.len(),
                pseq == all_matches_of(self.pat(), self.pat_unicode(), span@),
                enc == self.encoder_map(),
                pseq.len() == pieces@.len(),
                forall|i: int|
                    0 <= i < pieces@.len() ==> #[trigger] pseq[i] == (
                    pieces@[i].0 as int,
                    pieces@[i].1 as int,
                ),
                forall|i: int|
                    0 <= i < pieces@.len() ==> (#[trigger] pieces@[i].0) <= pieces@[i].1
                        <= span@.len(),
                out@.map_values(|t: isize| t as int) == base.map_values(|t: isize| t as int)
                    + done,
                spec_encode_pieces(enc, span@, pseq, lptl_in as int) == (match spec_encode_pieces(
                    enc,
                    span@,
                    pseq.skip(pi as int),
                    lptl as int,
                ) {
                    None => None::<(Seq<int>, int)>,
                    Some(r2) => Some((done + r2.0, r2.1)),
                }),
            decreases npieces - pi,
        {
            proof {
                assert(pseq.skip(pi as int).skip(1) =~= pseq.skip(pi + 1));
                assert(pseq.skip(pi as int)[0] == pseq[pi as int]);
            }
            let ps = pieces[pi].0;
            let pe = pieces[pi].1;
            let piece = sub_bytes(span, ps, pe);
            let ghost pre_done = done;
            match self.encoder.lookup(&piece) {
                Some(tok) => {
                    let ghost pre = out@;
                    out.push(tok);
                    lptl = 1;
                    proof {
                        done = pre_done + seq![tok as int];
                        assert(out@ =~= pre.push(tok));
                        assert(out@.map_values(|t: isize| t as int) =~= pre.map_values(
                            |t: isize| t as int,
                        ) + seq![tok as int]);
                        assert(base.map_values(|t: isize| t as int) + pre_done + seq![tok as int]
                            =~= base.map_values(|t: isize| t as int) + (pre_done
                            + seq![tok as int]));
                        assert forall|r0: Seq<int>|
                            pre_done + (seq![tok as int] + r0) =~= (pre_done + seq![tok as int])
                                + r0 by {}
                    }
                },
                None => {
                    match byte_pair_encode(&piece, &self.encoder) {
                        Ok(toks) => {
                            let ghost tseq = toks@.map_values(|t: isize| t as int);
                            lptl = toks.len();
                            let ghost pre = out@;
                            let mut toks = toks;
                            out.append(&mut toks);
                            proof {
                                done = pre_done + tseq;
                                lemma_map_values_concat(pre, out@.subrange(
                                    pre.len() as int,
                                    out@.len() as int,
                                ));
                                assert(out@ =~= pre + out@.subrange(
                                    pre.len() as int,
                                    out@.len() as int,
                                ));
                                assert(out@.map_values(|t: isize| t as int) =~= pre.map_values(
                                    |t: isize| t as int,
                                ) + tseq);
                                assert(base.map_values(|t: isize| t as int) + pre_done + tseq
                                    =~= base.map_values(|t: isize| t as int) + (pre_done + tseq));
                                assert forall|r0: Seq<int>|
                                    pre_done + (tseq + r0) =~= (pre_done + tseq) + r0 by {}
                            }
                        },
                        Err(e) => {
                            return Err(e);
                        },
                    }
                },
            }
            pi = pi + 1;
        }
        proof {
            assert(pseq.skip(npieces as int) =~= Seq::<(int, int)>::empty());
            assert(done + Seq::<int>::empty() =~= done);
        }
        Ok(lptl)
    }

    /// Tokenize a text: the token ids in order, and the unit count of the
    /// trailing piece. The result is pinned to `spec_encode`, so one
    /// configuration always tokenizes equal texts equally.
    pub fn encode_native(&self, text: &str) -> (r: Result<(Vec<isize>, usize), TokenError>)
        ensures
            r matches Ok(out) ==> self.spec_encode(text.spec_bytes()) == Some(
                (out.0@.map_values(|t: isize| t as int), out.1 as int),
            ),
            r == Err::<(Vec<isize>, usize), TokenError>(TokenError::MissingVocabEntry)
                ==> self.spec_encode(text.spec_bytes()) is None,
            r matches Err(e) ==> (e == TokenError::MissingVocabEntry || e
                == TokenError::MatchFailed),
    {
        let bytes = text.as_bytes_vec();
        let ghost enc = self.encoder_map();
        let ghost sp = self.specials_map();
        let ghost pat = self.pat();
        let ghost pu = self.pat_unicode();
        let ghost spat = self.spat();
        let ghost su = self.spat_unicode();
        let ghost full = spec_encode_from(enc, sp, pat, pu, spat, su, bytes@, 0, 0);
        let mut result: Vec<isize> = Vec::new();
        let mut last_piece_token_len: usize = 0;
        let mut start: usize = 0;
        let n = bytes.len();
        proof {
            assert(result@.map_values(|t: isize| t as int) =~= Seq::<int>::empty());
            if full is Some {
                assert(Seq::<int>::empty() + full.unwrap().0 =~= full.unwrap().0);
            }
        }
        loop
            invariant_except_break
                full == (match spec_encode_from(
                    enc,
                    sp,
                    pat,
                    pu,
                    spat,
                    su,
                    bytes@,
                    start as int,
                    last_piece_token_len as int,
                ) {
                    None => None::<(Seq<int>, int)>,
                    Some(r2) => Some(
                        (result@.map_values(|t: isize| t as int) + r2.0, r2.1),
                    ),
                }),
            invariant
                n == bytes@.len(),
                bytes@ == text.spec_bytes(),
                start <= n,
                enc == self.encoder_map(),
                sp == self.specials_map(),
                pat == self.pat(),
                pu == self.pat_unicode(),
                spat == self.spat(),
                su == self.spat_unicode(),
                full == spec_encode_from(enc, sp, pat, pu, spat, su, bytes@, 0, 0),
            ensures
                full == Some(
                    (result@.map_values(|t: isize| t as int), last_piece_token_len as int),
                ),
            decreases n - start,
        {
            let ghost lptl0 = last_piece_token_len as int;
            let ghost entry_res = result@;
            let ghost entry_start = start as int;
            let rest = sub_bytes(&bytes, start, n);
            let mut next_special: Option<(usize, usize)> = None;
            match &self.tl_special_regex {
                Some(m) => {
                    match matcher_find(m, &rest) {
                        Ok(o) => {
                            next_special = o;
                        },
                        Err(e) => {
                            return Err(e);
                        },
                    }
                },
                None => {},
            }
            let ghost fm = if spat is Some {
                first_match_of(spat.unwrap(), su, bytes@.subrange(start as int, n as int))
            } else {
                None
            };
            let mut end = n;
            let mut have_special = false;
            match next_special {
                Some(se) => {
                    if se.0 < se.1 {
                        end = start + se.0;
                        have_special = true;
                    }
                },
                None => {},
            }
            let ghost ok = match fm {
                Some(se) => 0 <= start as int && 0 <= se.0 && se.0 < se.1 && start as int + se.1
                    <= bytes@.len(),
                None => false,
            };
            proof {
                assert(have_special == ok);
                if ok {
                    assert(end as int == start as int + fm.unwrap().0);
                }
            }
            let span = sub_bytes(&bytes, start, end);
            let lp = match self.encode_span(&span, &mut result, last_piece_token_len) {
                Ok(l) => l,
                Err(e) => {
                    proof {
                        if e == TokenError::MissingVocabEntry {
                            assert(spec_encode_from(
                                enc,
                                sp,
                                pat,
                                pu,
                                spat,
                                su,
                                bytes@,
                                start as int,
                                lptl0,
                            ) is None);
                        }
                    }
                    return Err(e);
                },
            };
            last_piece_token_len = lp;
            let ghost span_toks = spec_encode_pieces(
                enc,
                span@,
                all_matches_of(pat, pu, span@),
                lptl0,
            ).unwrap().0;
            let ghost entry_map = entry_res.map_values(|t: isize| t as int);
            proof {
                assert(result@.map_values(|t: isize| t as int) == entry_map + span_toks);
            }
            if have_special {
                let se = match next_special {
                    Some(se) => se,
                    None => (0, 0),
                };
                let stext = sub_bytes(&bytes, start + se.0, start + se.1);
                let ghost stext_seq = bytes@.subrange(
                    entry_start + se.0 as int,
                    entry_start + se.1 as int,
                );
                match self.special_tokens_encoder.lookup(&stext) {
                    Some(id) => {
                        let ghost pre = result@;
                        result.push(id);
                        last_piece_token_len = 0;
                        proof {
                            assert(result@ =~= pre.push(id));
                            assert(result@.map_values(|t: isize| t as int) =~= pre.map_values(
                                |t: isize| t as int,
                            ) + seq![id as int]);
                        }
                    },
                    None => {},
                }
                start = start + se.1;
                proof {
                    let r1 = spec_encode_from(
                        enc,
                        sp,
                        pat,
                        pu,
                        spat,
                        su,
                        bytes@,
                        entry_start,
                        lptl0,
                    );
                    let r2 = spec_encode_from(
                        enc,
                        sp,
                        pat,
                        pu,
                        spat,
                        su,
                        bytes@,
                        start as int,
                        last_piece_token_len as int,
                    );
                    if sp.contains_key(stext_seq) {
                        let idv = sp[stext_seq];
                        match r2 {
                            None => {
                                assert(r1 is None);
                            },
                            Some(rr2) => {
                                assert(r1 == Some(((span_toks + seq![idv]) + rr2.0, rr2.1)));
                                assert(((entry_map + span_toks) + seq![idv]) + rr2.0 =~= entry_map
                                    + ((span_toks + seq![idv]) + rr2.0));
                            },
                        }
                    } else {
                        match r2 {
                            None => {
                                assert(r1 is None);
                            },
                            Some(rr2) => {
                                assert(r1 == Some((span_toks + rr2.0, rr2.1)));
                                assert((entry_map + span_toks) + rr2.0 =~= entry_map + (span_toks
                                    + rr2.0));
                            },
                        }
                    }
                }
            } else {
                proof {
                    assert(spec_encode_from(enc, sp, pat, pu, spat, su, bytes@, entry_start, lptl0)
                        == Some((span_toks, last_piece_token_len as int)));
                }
                break ;
            }
        }
        Ok((result, last_piece_token_len))
    }
}

/// The characters from `start` to `end`, each index clamped to the length;
/// an inverted range yields the empty string.
pub open spec fn spec_cut_chars(chars: Seq<char>, start: int, end: int) -> Seq<char> {
    let s = if start <= chars.len() {
        start
    } else {
        chars.len() as int
    };
    let e = if end <= chars.len() {
        end
    } else {
        chars.len() as int
    };
    if s <= e {
        chars.subrange(s, e)
    } else {
        Seq::<char>::empty()
    }
}

/// The characters of `chars` from `start` to `end`, each index clamped to
/// the length, collected into a string.
pub fn cut_chars(chars: &Vec<char>, start: usize, end: usize) -> (r: String)
    ensures
        r@ == spec_cut_chars(chars@, start as int, end as int),
{
    let n = chars.len();
    let s = if start < n {
        start
    } else {
        n
    };
    let e = if end < n {
        end
    } else {
        n
    };
    let mut picked: Vec<char> = Vec::new();
    proof {
        if s >= e {
            assert(picked@ =~= spec_cut_chars(chars@, start as int, end as int));
        }
    }
    let mut i: usize = s;
    if s < e {
        while i < e
            invariant
                s <= i <= e <= chars@.len(),
                picked@ == chars@.subrange(s as int, i as int),
            decreases e - i,
        {
            picked.push(chars[i]);
            proof {
                assert(picked@ =~= chars@.subrange(s as int, i + 1));
            }
            i = i + 1;
        }
    }
    chars_to_string(&picked)
}

} // verus!

verus! {

use crate::bpe::{decode_ranks, lemma_bpe_round_trip, rank_bytes, vocab_injective};

/// The pieces cover the byte range `[a, n)` of a span contiguously.
pub open spec fn pieces_cover(pieces: Seq<(int, int)>, a: int, n: int) -> bool {
    &&& (if pieces.len() == 0 {
        a == n
    } else {
        pieces[0].0 == a && pieces.last().1 == n
    })
    &&& forall|i: int| 0 <= i < pieces.len() ==> (#[trigger] pieces[i]).0 <= pieces[i].1
    &&& forall|i: int| 0 <= i < pieces.len() - 1 ==> (#[trigger] pieces[i]).1 == pieces[i + 1].0
}

/// Decoding distributes over concatenation of rank sequences.
proof fn lemma_decode_ranks_concat(v: Map<Seq<u8>, int>, a: Seq<int>, b: Seq<int>)
    ensures
        decode_ranks(v, a + b) == decode_ranks(v, a) + decode_ranks(v, b),
    decreases a.len(),
{
    if a.len() == 0 {
        assert(a + b =~= b);
        assert(decode_ranks(v, a) + decode_ranks(v, b) =~= decode_ranks(v, b));
    } else {
        assert((a + b).skip(1) =~= a.skip(1) + b);
        lemma_decode_ranks_concat(v, a.skip(1), b);
        assert((a + b)[0] == a[0]);
        assert(rank_bytes(v, a[0]) + (decode_ranks(v, a.skip(1)) + decode_ranks(v, b))
            =~= (rank_bytes(v, a[0]) + decode_ranks(v, a.skip(1))) + decode_ranks(v, b));
    }
}

/// Round trip of a segmented span: when the segmenter's pieces cover the
/// span from `a` on with no gaps or overlaps and the span tokenizes,
/// decoding every emitted rank through an injective vocabulary and
/// concatenating the byte-strings reconstructs exactly the covered bytes.
pub proof fn lemma_pieces_round_trip(
    enc: Map<Seq<u8>, int>,
    span: Seq<u8>,
    pieces: Seq<(int, int)>,
    lptl: int,
    a: int,
)
    requires
        vocab_injective(enc),
        0 <= a <= span.len(),
        pieces_cover(pieces, a, span.len() as int),
        spec_encode_pieces(enc, span, pieces, lptl) matches Some(r),
    ensures
        spec_encode_pieces(enc, span, pieces, lptl) matches Some(r) ==> decode_ranks(enc, r.0)
            == span.subrange(a, span.len() as int),
    decreases pieces.len(),
{
    let n = span.len() as int;
    let r = spec_encode_pieces(enc, span, pieces, lptl).unwrap();
    if pieces.len() == 0 {
        assert(decode_ranks(enc, r.0) =~= span.subrange(n, n));
    } else {
        let ps = pieces[0].0;
        let pe = pieces[0].1;
        assert(ps == a);
        assert(pe <= n) by {
            if pieces.len() == 1 {
            } else {
                assert(forall|i: int|
                    0 <= i < pieces.len() - 1 ==> (#[trigger] pieces[i]).1 == pieces[i + 1].0);
                lemma_cover_tail_bound(pieces, n);
            }
        }
        let pbytes = span.subrange(ps, pe);
        let rest_pieces = pieces.skip(1);
        assert(pieces_cover(rest_pieces, pe, n)) by {
            assert(forall|i: int|
                0 <= i < rest_pieces.len() ==> rest_pieces[i] == pieces[i + 1]);
            if rest_pieces.len() > 0 {
                assert(rest_pieces[0] == pieces[1]);
                assert(rest_pieces.last() == pieces.last());
            }
        }
        let first_toks: Seq<int> = if enc.contains_key(pbytes) {
            seq![enc[pbytes]]
        } else {
            crate::bpe::spec_bpe(pbytes, enc).unwrap()
        };
        if enc.contains_key(pbytes) {
            let rest = spec_encode_pieces(enc, span, rest_pieces, 1).unwrap();
            lemma_pieces_round_trip(enc, span, rest_pieces, 1, pe);
            assert(rank_bytes(enc, enc[pbytes]) == pbytes);
            assert(decode_ranks(enc, seq![enc[pbytes]]) == pbytes + decode_ranks(
                enc,
                seq![enc[pbytes]].skip(1),
            ));
            assert(seq![enc[pbytes]].skip(1) =~= Seq::<int>::empty());
            assert(pbytes + Seq::<u8>::empty() =~= pbytes);
            lemma_decode_ranks_concat(enc, seq![enc[pbytes]], rest.0);
        } else {
            let ts = crate::bpe::spec_bpe(pbytes, enc).unwrap();
            let rest = spec_encode_pieces(enc, span, rest_pieces, ts.len() as int).unwrap();
            lemma_bpe_round_trip(pbytes, enc);
            lemma_pieces_round_trip(enc, span, rest_pieces, ts.len() as int, pe);
            lemma_decode_ranks_concat(enc, ts, rest.0);
        }
        assert(span.subrange(a, n) =~= span.subrange(ps, pe) + span.subrange(pe, n));
    }
}

/// In a contiguous cover every piece ends within the span.
proof fn lemma_cover_tail_bound(pieces: Seq<(int, int)>, n: int)
    requires
        pieces.len() >= 1,
        pieces.last().1 == n,
        forall|i: int| 0 <= i < pieces.len() ==> (#[trigger] pieces[i]).0 <= pieces[i].1,
        forall|i: int| 0 <= i < pieces.len() - 1 ==> (#[trigger] pieces[i]).1 == pieces[i + 1].0,
    ensures
        pieces[0].1 <= n,
    decreases pieces.len(),
{
    if pieces.len() > 1 {
        let rest = pieces.skip(1);
        assert(forall|i: int| 0 <= i < rest.len() ==> rest[i] == pieces[i + 1]);
        assert(rest.last() == pieces.last());
        lemma_cover_tail_bound(rest, n);
        assert(pieces[0].1 == pieces[1].0 <= pieces[1].1);
        assert(rest[0] == pieces[1]);
    }
}

} // verus!

verus! {

use crate::bpe::emit_units;

/// Some token byte-string of the map carries this id.
pub open spec fn has_rank(m: Map<Seq<u8>, int>, t: int) -> bool {
    exists|k: Seq<u8>| m.contains_key(k) && m[k] == t
}

/// Decode a token id: a special id through the special-token set, any other
/// through the ordinary vocabulary.
pub open spec fn token_bytes(enc: Map<Seq<u8>, int>, sp: Map<Seq<u8>, int>, t: int) -> Seq<u8> {
    if has_rank(sp, t) {
        rank_bytes(sp, t)
    } else {
        rank_bytes(enc, t)
    }
}

/// Decode a whole token sequence.
pub open spec fn decode_tokens(enc: Map<Seq<u8>, int>, sp: Map<Seq<u8>, int>, ts: Seq<int>) -> Seq<
    u8,
>
    decreases ts.len(),
{
    if ts.len() == 0 {
        Seq::<u8>::empty()
    } else {
        token_bytes(enc, sp, ts[0]) + decode_tokens(enc, sp, ts.skip(1))
    }
}

proof fn lemma_decode_tokens_concat(
    enc: Map<Seq<u8>, int>,
    sp: Map<Seq<u8>, int>,
    a: Seq<int>,
    b: Seq<int>,
)
    ensures
        decode_tokens(enc, sp, a + b) == decode_tokens(enc, sp, a) + decode_tokens(enc, sp, b),
    decreases a.len(),
{
    if a.len() == 0 {
        assert(a + b =~= b);
        assert(decode_tokens(enc, sp, a) + decode_tokens(enc, sp, b) =~= decode_tokens(enc, sp, b));
    } else {
        assert((a + b).skip(1) =~= a.skip(1) + b);
        lemma_decode_tokens_concat(enc, sp, a.skip(1), b);
        assert((a + b)[0] == a[0]);
        assert(token_bytes(enc, sp, a[0]) + (decode_tokens(enc, sp, a.skip(1)) + decode_tokens(
            enc,
            sp,
            b,
        )) =~= (token_bytes(enc, sp, a[0]) + decode_tokens(enc, sp, a.skip(1))) + decode_tokens(
            enc,
            sp,
            b,
        ));
    }
}

/// When every id of a sequence is an ordinary-vocabulary id and no ordinary
/// id is also a special id, the combined decoding agrees with the ordinary
/// one.
proof fn lemma_decode_tokens_ordinary(
    enc: Map<Seq<u8>, int>,
    sp: Map<Seq<u8>, int>,
    ts: Seq<int>,
)
    requires
        forall|t: int| has_rank(enc, t) ==> !has_rank(sp, t),
        forall|i: int| 0 <= i < ts.len() ==> has_rank(enc, #[trigger] ts[i]),
    ensures
        decode_tokens(enc, sp, ts) == decode_ranks(enc, ts),
    decreases ts.len(),
{
    if ts.len() > 0 {
        assert(forall|i: int| 0 <= i < ts.skip(1).len() ==> ts.skip(1)[i] == ts[i + 1]);
        lemma_decode_tokens_ordinary(enc, sp, ts.skip(1));
    }
}

/// Every rank the merge engine emits is an ordinary-vocabulary id.
proof fn lemma_emit_ranks_in_map(piece: Seq<u8>, v: Map<Seq<u8>, int>, bs: Seq<int>, i: int)
    requires
        emit_units(piece, v, bs, i) matches Some(ts),
    ensures
        emit_units(piece, v, bs, i) matches Some(ts) ==> forall|j: int|
            0 <= j < ts.len() ==> has_rank(v, #[trigger] ts[j]),
    decreases bs.len() - i,
{
    if i + 1 < bs.len() {
        let key = piece.subrange(bs[i], bs[i + 1]);
        lemma_emit_ranks_in_map(piece, v, bs, i + 1);
        let rest = emit_units(piece, v, bs, i + 1).unwrap();
        let ts = emit_units(piece, v, bs, i).unwrap();
        assert(ts == seq![v[key]] + rest);
        assert(ts[0] == v[key]);
        assert(has_rank(v, v[key]));
        assert(forall|j: int| 1 <= j < ts.len() ==> ts[j] == rest[j - 1]);
    }
}

/// Every token a segmented span produces is an ordinary-vocabulary id.
proof fn lemma_pieces_ranks_in_map(
    enc: Map<Seq<u8>, int>,
    span: Seq<u8>,
    pieces: Seq<(int, int)>,
    lptl: int,
)
    requires
        spec_encode_pieces(enc, span, pieces, lptl) matches Some(r),
    ensures
        spec_encode_pieces(enc, span, pieces, lptl) matches Some(r) ==> forall|j: int|
            0 <= j < r.0.len() ==> has_rank(enc, #[trigger] r.0[j]),
    decreases pieces.len(),
{
    if pieces.len() > 0 {
        let ps = pieces[0].0;
        let pe = pieces[0].1;
        let r = spec_encode_pieces(enc, span, pieces, lptl).unwrap();
        if !(0 <= ps <= pe <= span.len()) {
            lemma_pieces_ranks_in_map(enc, span, pieces.skip(1), lptl);
        } else {
            let pbytes = span.subrange(ps, pe);
            if enc.contains_key(pbytes) {
                lemma_pieces_ranks_in_map(enc, span, pieces.skip(1), 1);
                let rest = spec_encode_pieces(enc, span, pieces.skip(1), 1).unwrap();
                assert(r.0 == seq![enc[pbytes]] + rest.0);
                assert(has_rank(enc, enc[pbytes]));
                assert(forall|j: int| 1 <= j < r.0.len() ==> r.0[j] == rest.0[j - 1]);
            } else {
                let ts = spec_bpe(pbytes, enc).unwrap();
                lemma_pieces_ranks_in_map(enc, span, pieces.skip(1), ts.len() as int);
                let rest = spec_encode_pieces(enc, span, pieces.skip(1), ts.len() as int).unwrap();
                assert(r.0 == ts + rest.0);
                if pbytes.len() == 0 {
                    assert(ts.len() == 0);
                } else {
                    lemma_emit_ranks_in_map(
                        pbytes,
                        enc,
                        crate::bpe::merge_bounds(
                            pbytes,
                            enc,
                            crate::bpe::init_bounds(pbytes.len() as int),
                        ),
                        0,
                    );
                }
                assert(forall|j: int| 0 <= j < ts.len() ==> r.0[j] == ts[j]);
                assert(forall|j: int| ts.len() <= j < r.0.len() ==> r.0[j] == rest.0[j - ts.len()]);
            }
        }
    }
}

/// An accepted hit of the special-token scanner at or after offset `a` is a
/// literal of the special-token set.
pub open spec fn special_hit_is_literal(
    sp: Map<Seq<u8>, int>,
    spat: Seq<u8>,
    sp_u: bool,
    bytes: Seq<u8>,
    a: int,
) -> bool {
    match first_match_of(spat, sp_u, bytes.subrange(a, bytes.len() as int)) {
        Some(se) => (0 <= se.0 && se.0 < se.1 && se.1 <= bytes.len() - a) ==> sp.contains_key(
            bytes.subrange(a + se.0, a + se.1),
        ),
        None => true,
    }
}

/// Round trip of the whole encoding loop: when the ordinary vocabulary and
/// the special-token set are injective and disjoint in id-space, the
/// segmenter's pieces cover every span it is given, and every accepted
/// special-token hit is a literal of the set, then decoding the emitted
/// token ids reconstructs the input bytes exactly.
pub proof fn lemma_encode_round_trip(
    enc: Map<Seq<u8>, int>,
    sp: Map<Seq<u8>, int>,
    pat: Seq<u8>,
    pat_u: bool,
    spat: Option<Seq<u8>>,
    sp_u: bool,
    bytes: Seq<u8>,
    start: int,
    lptl: int,
)
    requires
        vocab_injective(enc),
        vocab_injective(sp),
        forall|t: int| has_rank(enc, t) ==> !has_rank(sp, t),
        0 <= start <= bytes.len(),
        forall|a: int, b: int|
            0 <= a <= b <= bytes.len() ==> pieces_cover(
                #[trigger] all_matches_of(pat, pat_u, bytes.subrange(a, b)),
                0,
                b - a,
            ),
        spat is Some ==> forall|a: int|
            0 <= a <= bytes.len() ==> #[trigger] special_hit_is_literal(
                sp,
                spat.unwrap(),
                sp_u,
                bytes,
                a,
            ),
        spec_encode_from(enc, sp, pat, pat_u, spat, sp_u, bytes, start, lptl) matches Some(r),
    ensures
        spec_encode_from(enc, sp, pat, pat_u, spat, sp_u, bytes, start, lptl) matches Some(r)
            ==> decode_tokens(enc, sp, r.0) == bytes.subrange(start, bytes.len() as int),
    decreases bytes.len() - start,
{
    let n = bytes.len() as int;
    let r = spec_encode_from(enc, sp, pat, pat_u, spat, sp_u, bytes, start, lptl).unwrap();
    let rest = bytes.subrange(start, n);
    let fm = if spat is Some {
        first_match_of(spat.unwrap(), sp_u, rest)
    } else {
        None
    };
    let ok = match fm {
        Some(se) => 0 <= start && 0 <= se.0 && se.0 < se.1 && start + se.1 <= n,
        None => false,
    };
    let end = if ok {
        start + fm.unwrap().0
    } else {
        n
    };
    let span = bytes.subrange(start, end);
    let pieces = all_matches_of(pat, pat_u, span);
    let pr = spec_encode_pieces(enc, span, pieces, lptl).unwrap();
    assert(pieces_cover(pieces, 0, end - start));
    lemma_pieces_round_trip(enc, span, pieces, lptl, 0);
    lemma_pieces_ranks_in_map(enc, span, pieces, lptl);
    lemma_decode_tokens_ordinary(enc, sp, pr.0);
    assert(span.subrange(0, span.len() as int) =~= span);
    if ok {
        let s = start + fm.unwrap().0;
        let e = start + fm.unwrap().1;
        let stext = bytes.subrange(s, e);
        assert(special_hit_is_literal(sp, spat.unwrap(), sp_u, bytes, start));
        assert(sp.contains_key(stext));
        if sp.contains_key(stext) {
            let idv = sp[stext];
            let r2 = spec_encode_from(enc, sp, pat, pat_u, spat, sp_u, bytes, e, 0).unwrap();
            lemma_encode_round_trip(enc, sp, pat, pat_u, spat, sp_u, bytes, e, 0);
            assert(r.0 == (pr.0 + seq![idv]) + r2.0);
            assert(has_rank(sp, idv));
            assert(rank_bytes(sp, idv) == stext);
            assert(decode_tokens(enc, sp, seq![idv]) == token_bytes(enc, sp, idv) + decode_tokens(
                enc,
                sp,
                seq![idv].skip(1),
            ));
            assert(seq![idv].skip(1) =~= Seq::<int>::empty());
            assert(stext + Seq::<u8>::empty() =~= stext);
            assert(token_bytes(enc, sp, idv) == stext) by {
                assert(!has_rank(enc, idv));
            }
            lemma_decode_tokens_concat(enc, sp, pr.0 + seq![idv], r2.0);
            lemma_decode_tokens_concat(enc, sp, pr.0, seq![idv]);
            assert(bytes.subrange(start, n) =~= span + stext + bytes.subrange(e, n));
        }
    } else {
        assert(r == pr);
        assert(bytes.subrange(start, n) =~= span);
    }
}

} // verus!

verus! {

/// Special-token precedence: when the scanner reports a hit whose text is a
/// literal of the special-token set, the encoding of the whole text is the
/// ordinary tokens of the span before the literal, then exactly one id, the
/// literal's own, then the encoding of what follows it. None of the
/// literal's bytes reach an ordinary-piece merge: the segmenter sees only
/// the spans on either side.
pub proof fn lemma_special_token_precedence(
    enc: Map<Seq<u8>, int>,
    sp: Map<Seq<u8>, int>,
    pat: Seq<u8>,
    pat_u: bool,
    spat_v: Seq<u8>,
    sp_u: bool,
    bytes: Seq<u8>,
    start: int,
    lptl: int,
)
    requires
        0 <= start <= bytes.len(),
        ({
            let fm = first_match_of(spat_v, sp_u, bytes.subrange(start, bytes.len() as int));
            fm matches Some(se) && 0 <= se.0 && se.0 < se.1 && start + se.1 <= bytes.len()
                && sp.contains_key(bytes.subrange(start + se.0, start + se.1))
        }),
        spec_encode_from(enc, sp, pat, pat_u, Some(spat_v), sp_u, bytes, start, lptl)
            matches Some(r),
    ensures
        ({
            let se = first_match_of(
                spat_v,
                sp_u,
                bytes.subrange(start, bytes.len() as int),
            ).unwrap();
            let span = bytes.subrange(start, start + se.0);
            let stext = bytes.subrange(start + se.0, start + se.1);
            &&& spec_encode_pieces(enc, span, all_matches_of(pat, pat_u, span), lptl)
                matches Some(pr)
            &&& spec_encode_from(enc, sp, pat, pat_u, Some(spat_v), sp_u, bytes, start + se.1, 0)
                matches Some(r2)
            &&& spec_encode_from(enc, sp, pat, pat_u, Some(spat_v), sp_u, bytes, start, lptl)
                == Some(
                ((spec_encode_pieces(enc, span, all_matches_of(pat, pat_u, span), lptl).unwrap().0
                    + seq![sp[stext]]) + spec_encode_from(
                    enc,
                    sp,
                    pat,
                    pat_u,
                    Some(spat_v),
                    sp_u,
                    bytes,
                    start + se.1,
                    0,
                ).unwrap().0, spec_encode_from(
                    enc,
                    sp,
                    pat,
                    pat_u,
                    Some(spat_v),
                    sp_u,
                    bytes,
                    start + se.1,
                    0,
                ).unwrap().1),
            )
        }),
{
    let se = first_match_of(spat_v, sp_u, bytes.subrange(start, bytes.len() as int)).unwrap();
    let span = bytes.subrange(start, start + se.0);
    let stext = bytes.subrange(start + se.0, start + se.1);
    assert(spec_encode_pieces(enc, span, all_matches_of(pat, pat_u, span), lptl) is Some);
    assert(spec_encode_from(enc, sp, pat, pat_u, Some(spat_v), sp_u, bytes, start + se.1, 0)
        is Some);
}

} // verus!
