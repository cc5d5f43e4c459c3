use tokcount::bpe::{byte_pair_encode, TokenError};
use tokcount::engine::{cut_chars, CoreBpe};
use tokcount::vocab::Vocab;
use tokcount::count_text;

fn make_vocab(entries: &[(&[u8], isize)]) -> Vocab {
    let mut v = Vocab::new();
    for (k, r) in entries {
        v.insert(k.to_vec(), *r);
    }
    v
}

fn letters_engine(entries: &[(&[u8], isize)], specials: &[(&[u8], isize)]) -> CoreBpe {
    let vocab = make_vocab(entries);
    let sp = make_vocab(specials);
    CoreBpe::new(vocab, sp, String::from("[a-z]+")).unwrap()
}

#[test]
fn it_works() {
    // The text segments into the pieces "hello", "," and " openai"; with this
    // three-entry table each piece is one token, so the count is 3. Every
    // piece must contribute its tokens: round-trip completeness forbids a
    // merged piece from yielding nothing.
    let data = b"aGVsbG8= 0\nLA== 1\nIG9wZW5haQ== 2\n".to_vec();
    let result = count_text("gpt-4", "hello, openai", &data);
    assert_eq!(result, Ok(3));
}

#[test]
fn whole_piece_vocabulary_hit() {
    let bpe = letters_engine(&[(b"a", 0), (b"b", 1), (b"ab", 2), (b"abc", 3)], &[]);
    let (tokens, last) = bpe.encode_native("abc").unwrap();
    assert_eq!(tokens, vec![3]);
    assert_eq!(last, 1);
}

#[test]
fn missing_single_byte_is_fatal() {
    let bpe = letters_engine(&[(b"a", 0), (b"b", 1), (b"ab", 2), (b"abc", 3)], &[]);
    let r = bpe.encode_native("ab c");
    assert_eq!(r, Err(TokenError::MissingVocabEntry));
}

#[test]
fn special_token_is_one_id() {
    let bpe = letters_engine(
        &[(b"hello", 1), (b"world", 2)],
        &[(b"<|endoftext|>", 100257)],
    );
    let (tokens, last) = bpe.encode_native("hello<|endoftext|>world").unwrap();
    assert_eq!(tokens, vec![1, 100257, 2]);
    assert_eq!(last, 1);
}

#[test]
fn special_token_not_absorbed_by_merge() {
    // the literal sits between letters that the vocabulary could merge
    let bpe = letters_engine(
        &[(b"a", 0), (b"b", 1), (b"ab", 2)],
        &[(b"<|eot|>", 50)],
    );
    let (tokens, _) = bpe.encode_native("a<|eot|>b").unwrap();
    assert_eq!(tokens, vec![0, 50, 1]);
}

#[test]
fn leftmost_pair_wins_ties() {
    // "ab" and "bc" share the lowest rank: the leftmost pair must merge first
    let ranks = make_vocab(&[(b"ab", 0), (b"bc", 0), (b"a", 1), (b"b", 2), (b"c", 3)]);
    let piece = b"abc".to_vec();
    let tokens = byte_pair_encode(&piece, &ranks).unwrap();
    assert_eq!(tokens, vec![0, 3]);
}

#[test]
fn merge_repeats_until_no_pair_remains() {
    let ranks = make_vocab(&[(b"ab", 0), (b"a", 1), (b"b", 2)]);
    let piece = b"abab".to_vec();
    let tokens = byte_pair_encode(&piece, &ranks).unwrap();
    assert_eq!(tokens, vec![0, 0]);
}

#[test]
fn single_byte_fallback_alone() {
    let ranks = make_vocab(&[(b"x", 7), (b"yz", 1), (b"y", 2), (b"z", 3)]);
    let piece = b"x".to_vec();
    assert_eq!(byte_pair_encode(&piece, &ranks).unwrap(), vec![7]);
}

#[test]
fn single_byte_fallback_inside_piece() {
    // no multi-byte entry contains `x`, so it must come out as its own rank
    let ranks = make_vocab(&[(b"a", 0), (b"x", 7), (b"b", 1)]);
    let piece = b"axb".to_vec();
    assert_eq!(byte_pair_encode(&piece, &ranks).unwrap(), vec![0, 7, 1]);
}

#[test]
fn encoding_is_deterministic() {
    let bpe = letters_engine(&[(b"a", 0), (b"b", 1), (b"ab", 2)], &[(b"<|eot|>", 9)]);
    let first = bpe.encode_native("abba<|eot|>ab").unwrap();
    let second = bpe.encode_native("abba<|eot|>ab").unwrap();
    assert_eq!(first, second);
}

#[test]
fn round_trip_reconstructs_input() {
    let entries: &[(&[u8], isize)] = &[(b"a", 0), (b"b", 1), (b"ab", 2), (b"ba", 3)];
    let specials: &[(&[u8], isize)] = &[(b"<|eot|>", 9)];
    let bpe = letters_engine(entries, specials);
    let text = "abab<|eot|>ba";
    let (tokens, _) = bpe.encode_native(text).unwrap();
    let vocab = make_vocab(entries);
    let sp = make_vocab(specials);
    let mut rebuilt: Vec<u8> = Vec::new();
    for t in tokens {
        if let Some(b) = sp.rank_to_bytes(t) {
            rebuilt.extend_from_slice(&b);
        } else {
            rebuilt.extend_from_slice(&vocab.rank_to_bytes(t).unwrap());
        }
    }
    assert_eq!(rebuilt, text.as_bytes().to_vec());
}

#[test]
fn empty_text_yields_nothing() {
    let bpe = letters_engine(&[(b"a", 0)], &[]);
    let (tokens, last) = bpe.encode_native("").unwrap();
    assert!(tokens.is_empty());
    assert_eq!(last, 0);
}

#[test]
fn cut_chars_clamps_and_slices() {
    let chars: Vec<char> = vec!['h', '\u{e9}', 'l', 'l', 'o'];
    assert_eq!(cut_chars(&chars, 1, 3), "\u{e9}l".to_string());
    assert_eq!(cut_chars(&chars, 3, 99), "lo".to_string());
    assert_eq!(cut_chars(&chars, 4, 2), String::new());
}
