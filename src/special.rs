use vstd::prelude::*;

verus! {

/// The fixed kinds of special token a tokenizer may register.
#[derive(Debug, Clone, Copy, PartialEq, Eq, Hash)]
pub enum SpecialToken {
    Eos,
    Unk,
    Eow,
}

/// The constant byte representation of each special token.
pub open spec fn special_repr(t: SpecialToken) -> Seq<u8> {
    match t {
        SpecialToken::Eos => seq![60u8, 124, 101, 111, 115, 124, 62],
        SpecialToken::Unk => seq![60u8, 124, 117, 110, 107, 124, 62],
        SpecialToken::Eow => seq![60u8, 124, 101, 111, 119, 124, 62],
    }
}

/// The one-byte tag of each special token in the binary format.
pub open spec fn special_tag(t: SpecialToken) -> u8 {
    match t {
        SpecialToken::Eos => 0,
        SpecialToken::Unk => 1,
        SpecialToken::Eow => 2,
    }
}

/// The special token with a given tag, if the tag is known.
pub open spec fn special_of_tag(b: u8) -> Option<SpecialToken> {
    if b == 0 {
        Some(SpecialToken::Eos)
    } else if b == 1 {
        Some(SpecialToken::Unk)
    } else if b == 2 {
        Some(SpecialToken::Eow)
    } else {
        None
    }
}

pub open spec fn invalid_special_msg() -> Seq<char> {
    "Invalid special token byte"@
}

impl SpecialToken {
    /// The marker bytes, `<|eos|>`, `<|unk|>` or `<|eow|>`.
    pub fn repr(&self) -> (r: Vec<u8>)
        ensures
            r@ == special_repr(*self),
    {
        let r = match self {
            SpecialToken::Eos => vec![60u8, 124, 101, 111, 115, 124, 62],
            SpecialToken::Unk => vec![60u8, 124, 117, 110, 107, 124, 62],
            SpecialToken::Eow => vec![60u8, 124, 101, 111, 119, 124, 62],
        };
        assert(r@ =~= special_repr(*self));
        r
    }

    pub fn to_u8(&self) -> (r: u8)
        ensures
            r == special_tag(*self),
    {
        match self {
            SpecialToken::Eos => 0,
            SpecialToken::Unk => 1,
            SpecialToken::Eow => 2,
        }
    }

    pub fn from_u8(byte: u8) -> (r: Result<SpecialToken, String>)
        ensures
            match special_of_tag(byte) {
                Some(t) => r == Ok::<SpecialToken, String>(t),
                None => r matches Err(e) && e@ == invalid_special_msg(),
            },
    {
        match byte {
            0 => Ok(SpecialToken::Eos),
            1 => Ok(SpecialToken::Unk),
            2 => Ok(SpecialToken::Eow),
            _ => Err("Invalid special token byte".to_string()),
        }
    }
}

/// Training configuration: the target vocabulary size and the special
/// tokens to register, in order.
pub struct BpeConfig {
    pub vocab_size: usize,
    pub special_tokens: Vec<SpecialToken>,
}

impl BpeConfig {
    pub fn default() -> (r: BpeConfig)
        ensures
            r.vocab_size == 50257,
            r.special_tokens@ == seq![SpecialToken::Eos],
    {
        let r = BpeConfig { vocab_size: 50257, special_tokens: vec![SpecialToken::Eos] };
        assert(r.special_tokens@ =~= seq![SpecialToken::Eos]);
        r
    }
}

} // verus!
