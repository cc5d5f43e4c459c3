use vstd::prelude::*;

verus! {

/// The chat models with a price table entry.
#[derive(PartialEq, Eq, Structural, Clone, Copy, Hash, Debug)]
pub enum Chat {
    Gpt3dot5TurboToken4k,
    Gpt3dot5TurboToken16k,
    Gpt4Token8k,
    Gpt4Token32k,
}

/// The embedding models with a price table entry.
#[derive(PartialEq, Eq, Structural, Clone, Copy, Hash, Debug)]
pub enum Embed {
    TextEmbeddingAda002,
}

/// A money amount in ten-millionths of a dollar, exact for every table
/// entry: one unit is 0.0000001 dollars.
#[derive(PartialEq, Eq, Structural, Clone, Copy, Debug)]
pub struct Price {
    pub units: i64,
}

/// The largest token count a price computation accepts: every count the
/// counting API can report is priceable.
pub const MAX_PRICED_TOKENS: isize = 1000000000;

impl Chat {
    /// Input price per token, in ten-millionths of a dollar: 0.0015, 0.003,
    /// 0.03 and 0.06 dollars per thousand tokens.
    pub open spec fn input_unit(&self) -> int {
        match self {
            Chat::Gpt3dot5TurboToken4k => 15,
            Chat::Gpt3dot5TurboToken16k => 30,
            Chat::Gpt4Token8k => 300,
            Chat::Gpt4Token32k => 600,
        }
    }

    /// Output price per token, in ten-millionths of a dollar: 0.002, 0.004,
    /// 0.06 and 0.12 dollars per thousand tokens.
    pub open spec fn output_unit(&self) -> int {
        match self {
            Chat::Gpt3dot5TurboToken4k => 20,
            Chat::Gpt3dot5TurboToken16k => 40,
            Chat::Gpt4Token8k => 600,
            Chat::Gpt4Token32k => 1200,
        }
    }

    pub fn get_input_price(&self, tokens: isize) -> (r: Price)
        requires
            0 <= tokens <= MAX_PRICED_TOKENS,
        ensures
            r.units as int == tokens as int * self.input_unit(),
    {
        match self {
            Chat::Gpt3dot5TurboToken4k => Price { units: (tokens as i64) * 15 },
            Chat::Gpt3dot5TurboToken16k => Price { units: (tokens as i64) * 30 },
            Chat::Gpt4Token8k => Price { units: (tokens as i64) * 300 },
            Chat::Gpt4Token32k => Price { units: (tokens as i64) * 600 },
        }
    }

    pub fn get_output_price(&self, tokens: isize) -> (r: Price)
        requires
            0 <= tokens <= MAX_PRICED_TOKENS,
        ensures
            r.units as int == tokens as int * self.output_unit(),
    {
        match self {
            Chat::Gpt3dot5TurboToken4k => Price { units: (tokens as i64) * 20 },
            Chat::Gpt3dot5TurboToken16k => Price { units: (tokens as i64) * 40 },
            Chat::Gpt4Token8k => Price { units: (tokens as i64) * 600 },
            Chat::Gpt4Token32k => Price { units: (tokens as i64) * 1200 },
        }
    }
}

/// The price of a chat call: input tokens at the input rate plus output
/// tokens at the output rate.
pub fn get_chat_price(model: Chat, input_tokens: isize, output_tokens: isize) -> (r: Price)
    requires
        0 <= input_tokens <= MAX_PRICED_TOKENS,
        0 <= output_tokens <= MAX_PRICED_TOKENS,
    ensures
        r.units as int == input_tokens as int * model.input_unit() + output_tokens as int
            * model.output_unit(),
{
    let input_price = model.get_input_price(input_tokens);
    let output_price = model.get_output_price(output_tokens);
    Price { units: input_price.units + output_price.units }
}

impl Embed {
    /// Price per token in ten-millionths of a dollar: 0.0001 dollars per
    /// thousand tokens.
    pub open spec fn unit(&self) -> int {
        match self {
            Embed::TextEmbeddingAda002 => 1,
        }
    }

    pub fn get_price(&self, tokens: isize) -> (r: Price)
        requires
            0 <= tokens <= MAX_PRICED_TOKENS,
        ensures
            r.units as int == tokens as int * self.unit(),
    {
        match self {
            Embed::TextEmbeddingAda002 => Price { units: (tokens as i64) * 1 },
        }
    }
}

/// The price of an embedding call.
pub fn get_embed_price(model: Embed, tokens: isize) -> (r: Price)
    requires
        0 <= tokens <= MAX_PRICED_TOKENS,
    ensures
        r.units as int == tokens as int * model.unit(),
{
    model.get_price(tokens)
}

} // verus!
