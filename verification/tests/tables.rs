use tokcount::bpe::TokenError;
use tokcount::encoding::{parse_dict_data, ChatModelPrefix, Dict, Encoding, SpecialToken};
use tokcount::price::{get_chat_price, get_embed_price, Chat, Embed};
use tokcount::{count_request, ChatMessage, ChatRequest};

#[test]
fn parse_table_with_blank_lines() {
    let data = b"YQ== 0\n\nYg== 1\n".to_vec();
    let v = parse_dict_data(&data).unwrap();
    assert_eq!(v.lookup(&b"a".to_vec()), Some(0));
    assert_eq!(v.lookup(&b"b".to_vec()), Some(1));
    assert_eq!(v.lookup(&b"c".to_vec()), None);
}

#[test]
fn parse_table_with_crlf_lines() {
    let data = b"YQ== 0\r\nYg== 1\r\n".to_vec();
    let v = parse_dict_data(&data).unwrap();
    assert_eq!(v.lookup(&b"a".to_vec()), Some(0));
}

#[test]
fn parse_rejects_three_fields() {
    let data = b"YQ== 0 extra\n".to_vec();
    assert_eq!(parse_dict_data(&data).err(), Some(TokenError::BadDictLine));
}

#[test]
fn parse_rejects_bad_base64() {
    let data = b"@@@ 1\n".to_vec();
    assert_eq!(parse_dict_data(&data).err(), Some(TokenError::BadDictLine));
}

#[test]
fn parse_rejects_bad_rank() {
    assert_eq!(parse_dict_data(&b"YQ== x\n".to_vec()).err(), Some(TokenError::BadDictLine));
    assert_eq!(parse_dict_data(&b"YQ== -1\n".to_vec()).err(), Some(TokenError::BadDictLine));
}

#[test]
fn parse_accepts_large_ranks() {
    let data = b"YQ== 1500000000
".to_vec();
    let v = parse_dict_data(&data).unwrap();
    assert_eq!(v.lookup(&b"a".to_vec()), Some(1500000000));
}

#[test]
fn parse_last_entry_wins() {
    let data = b"YQ== 0\nYQ== 5\n".to_vec();
    let v = parse_dict_data(&data).unwrap();
    assert_eq!(v.lookup(&b"a".to_vec()), Some(5));
}

#[test]
fn special_token_literals() {
    assert_eq!(SpecialToken::EndOfText.to_string(), "<|endoftext|>".to_string());
    assert_eq!(SpecialToken::FimPrefix.to_string(), "<|fim_prefix|>".to_string());
    assert_eq!(SpecialToken::EndOfPrompt.to_string(), "<|endofprompt|>".to_string());
}

#[test]
fn dict_names_and_patterns() {
    assert_eq!(Dict::Cl100kBase.to_string(), "cl100k_base".to_string());
    assert_eq!(Dict::P50kEdit.to_string(), "p50k_edit".to_string());
    assert!(Dict::Cl100kBase.get_regex_pattern().starts_with("(?i:"));
    assert!(Dict::R50kBase.get_regex_pattern().starts_with("'s|'t"));
}

#[test]
fn model_prefix_resolution() {
    assert_eq!(ChatModelPrefix::get_by_name("gpt-4"), Ok(ChatModelPrefix::Gpt4));
    assert_eq!(ChatModelPrefix::get_by_name("gpt-4-turbo"), Ok(ChatModelPrefix::Gpt4));
    assert_eq!(ChatModelPrefix::get_by_name("gpt-3.5-turbo"), Ok(ChatModelPrefix::Gpt3dot5));
    assert_eq!(ChatModelPrefix::get_by_name("davinci"), Err(TokenError::UnknownModel));
    assert_eq!(ChatModelPrefix::Gpt4.to_string(), "gpt-4".to_string());
}

#[test]
fn encoding_carries_special_tokens() {
    let data = b"YQ== 0\n".to_vec();
    let enc = Encoding::get_by_dict(&Dict::Cl100kBase, &data).unwrap();
    assert_eq!(enc.special_tokens.lookup(&b"<|endoftext|>".to_vec()), Some(100257));
    assert_eq!(enc.special_tokens.lookup(&b"<|endofprompt|>".to_vec()), Some(100276));
    assert_eq!(enc.explicit_vocab_size, 0);
    let enc2 = Encoding::get_by_dict(&Dict::P50kBase, &data).unwrap();
    assert_eq!(enc2.special_tokens.lookup(&b"<|endoftext|>".to_vec()), Some(50256));
    assert_eq!(enc2.explicit_vocab_size, 50281);
}

#[test]
fn unknown_model_is_rejected() {
    let data = b"YQ== 0\n".to_vec();
    let r = Encoding::get_by_chat_model("text-davinci", &data);
    assert!(r.is_err());
}

#[test]
fn count_request_frames_messages() {
    // dXNlcg== is "user", aGk= is "hi", Ym9i is "bob"
    let data = b"dXNlcg== 0\naGk= 1\nYm9i 2\n".to_vec();
    let request = ChatRequest {
        model: "gpt-3.5-turbo".to_string(),
        messages: vec![
            ChatMessage {
                role: "user".to_string(),
                content: "hi".to_string(),
                name: None,
            },
            ChatMessage {
                role: "user".to_string(),
                content: "hi".to_string(),
                name: Some("bob".to_string()),
            },
        ],
    };
    // 3 for the request, 3 + 1 + 1 per message, 1 + 1 more for the name
    assert_eq!(count_request(&request, &data), Ok(3 + 5 + 7));
}

#[test]
fn chat_prices_are_exact() {
    assert_eq!(Chat::Gpt4Token8k.get_input_price(1000).units, 300000);
    assert_eq!(Chat::Gpt4Token8k.get_output_price(1000).units, 600000);
    assert_eq!(get_chat_price(Chat::Gpt3dot5TurboToken4k, 1000, 1000).units, 35000);
    assert_eq!(get_chat_price(Chat::Gpt4Token32k, 0, 0).units, 0);
}

#[test]
fn embed_price_is_exact() {
    assert_eq!(get_embed_price(Embed::TextEmbeddingAda002, 1000).units, 1000);
    assert_eq!(Embed::TextEmbeddingAda002.get_price(30000).units, 30000);
}

#[test]
fn rank_to_bytes_decodes() {
    let data = b"YQ== 0\nYg== 1\n".to_vec();
    let v = parse_dict_data(&data).unwrap();
    assert_eq!(v.rank_to_bytes(0), Some(b"a".to_vec()));
    assert_eq!(v.rank_to_bytes(1), Some(b"b".to_vec()));
    assert_eq!(v.rank_to_bytes(9), None);
}
