use bpe_tokenizer::{BpeConfig, BpeTokenizer, SpecialToken};

fn built(vocab_size: usize, specials: Vec<SpecialToken>, corpus: &[u8]) -> BpeTokenizer {
    let config = BpeConfig { vocab_size, special_tokens: specials };
    let mut t = BpeTokenizer::new(config).unwrap();
    t.build(corpus);
    t
}

fn vocab_len(t: &BpeTokenizer) -> u32 {
    let mut n: u32 = 0;
    while t.decode(&[n]).is_ok() {
        n += 1;
    }
    n
}

#[test]
fn special_token_reprs() {
    assert_eq!(SpecialToken::Eos.repr(), b"<|eos|>".to_vec());
    assert_eq!(SpecialToken::Unk.repr(), b"<|unk|>".to_vec());
    assert_eq!(SpecialToken::Eow.repr(), b"<|eow|>".to_vec());
}

#[test]
fn special_token_tags() {
    assert_eq!(SpecialToken::Eos.to_u8(), 0);
    assert_eq!(SpecialToken::Unk.to_u8(), 1);
    assert_eq!(SpecialToken::Eow.to_u8(), 2);
    assert_eq!(SpecialToken::from_u8(0), Ok(SpecialToken::Eos));
    assert_eq!(SpecialToken::from_u8(1), Ok(SpecialToken::Unk));
    assert_eq!(SpecialToken::from_u8(2), Ok(SpecialToken::Eow));
    assert_eq!(SpecialToken::from_u8(3), Err("Invalid special token byte".to_string()));
}

#[test]
fn default_config() {
    let c = BpeConfig::default();
    assert_eq!(c.vocab_size, 50257);
    assert_eq!(c.special_tokens, vec![SpecialToken::Eos]);
}

#[test]
fn new_rejects_small_vocabulary() {
    let r = BpeTokenizer::new(BpeConfig { vocab_size: 255, special_tokens: vec![] });
    assert_eq!(r.err(), Some("Please use a vocabulary size of at least 256".to_string()));
    assert!(BpeTokenizer::new(BpeConfig { vocab_size: 256, special_tokens: vec![] }).is_ok());
}

#[test]
fn unbuilt_tokenizer_refuses_work() {
    let t = BpeTokenizer::new(BpeConfig { vocab_size: 300, special_tokens: vec![SpecialToken::Eos] }).unwrap();
    let msg = Some("Tokenizer not built yet".to_string());
    assert_eq!(t.encode(b"abc").err(), msg);
    assert_eq!(t.decode(&[97]).err(), msg);
    assert_eq!(t.to_binary().err(), msg);
}

#[test]
fn scenario_aaaa_with_eos() {
    let t = built(260, vec![SpecialToken::Eos], b"aaaa");
    assert_eq!(t.decode(&[97]).unwrap(), b"a".to_vec());
    assert_eq!(t.decode(&[0, 255]).unwrap(), vec![0u8, 255]);
    assert_eq!(t.decode(&[256]).unwrap(), b"<|eos|>".to_vec());
    assert_eq!(t.decode(&[257]).unwrap(), b"aa".to_vec());
    assert_eq!(t.decode(&[258]).unwrap(), b"aaaa".to_vec());
    // the word collapses to one id, after which no pair is left
    assert_eq!(vocab_len(&t), 259);
    assert_eq!(t.encode(b"aaaa").unwrap(), vec![258, 256]);
    assert_eq!(t.encode(b"aaa").unwrap(), vec![257, 97, 256]);
    assert_eq!(t.encode(b"").unwrap(), vec![256]);
}

#[test]
fn vocabulary_stops_at_target() {
    let t = built(257, vec![], b"abababab cdcdcd");
    assert_eq!(vocab_len(&t), 257);
    assert_eq!(t.decode(&[256]).unwrap(), b"ab".to_vec());
    let t = built(600, vec![SpecialToken::Eos, SpecialToken::Eow], b"hello world, hello there");
    let n = vocab_len(&t);
    assert!(n <= 600);
    assert!(n > 258);
}

#[test]
fn tie_goes_to_smallest_pair() {
    // (c, d) and (a, b) both occur twice; the smaller pair merges first
    let t = built(257, vec![], b"cd ab cd ab");
    assert_eq!(t.decode(&[256]).unwrap(), b"ab".to_vec());
}

#[test]
fn merge_reuses_existing_bytes() {
    // "abc" arises from (ab, c) and from (a, bc): the second merge reuses its id
    let t = built(400, vec![], b"ab ab ab abc abc bc bc bc bc abc");
    let n = vocab_len(&t);
    let mut seen: Vec<Vec<u8>> = Vec::new();
    for id in 0..n {
        let b = t.decode(&[id]).unwrap();
        assert!(!seen.contains(&b));
        seen.push(b);
    }
}

#[test]
fn decode_unknown_id_fails() {
    let t = built(300, vec![SpecialToken::Eos], b"some text");
    assert_eq!(t.decode(&[9999]).err(), Some("Token not found".to_string()));
    assert_eq!(t.decode(&[97, 9999]).err(), Some("Token not found".to_string()));
}

#[test]
fn decode_is_repeatable() {
    let t = built(300, vec![], b"banana bandana");
    let ids = t.encode(b"banana").unwrap();
    assert_eq!(t.decode(&ids).unwrap(), t.decode(&ids).unwrap());
}

#[test]
fn round_trip_plain_text() {
    let corpus = b"the quick brown fox jumps over the lazy dog; the dog sleeps.";
    let t = built(320, vec![], corpus);
    for input in [&b"the lazy fox, the end!"[..], &b"zebra"[..], &b""[..], &corpus[..], &[0u8, 200, 255, 65][..]] {
        let ids = t.encode(input).unwrap();
        assert_eq!(t.decode(&ids).unwrap(), input.to_vec());
    }
}

#[test]
fn markers_appear_in_encoding() {
    let t = built(256 + 3, vec![SpecialToken::Eos, SpecialToken::Unk, SpecialToken::Eow], b"");
    // eos = 256, unk = 257, eow = 258; nothing to merge
    assert_eq!(t.encode(b"ab c").unwrap(), vec![97, 98, 258, 32, 258, 99, 258, 256]);
    assert_eq!(t.decode(&[97, 258]).unwrap(), b"a<|eow|>".to_vec());
}

#[test]
fn encode_replays_merges_by_rank() {
    let t = built(300, vec![], b"low low low lower lowest");
    let ids = t.encode(b"low").unwrap();
    assert_eq!(ids.len(), 1);
    assert_eq!(t.decode(&ids).unwrap(), b"low".to_vec());
}

#[test]
fn save_load_keeps_behaviour() {
    let t = built(330, vec![SpecialToken::Eos, SpecialToken::Eow], b"to be or not to be, that is the question");
    let bytes = t.to_binary().unwrap();
    let u = BpeTokenizer::from_binary(&bytes).unwrap();
    for input in [&b"to be"[..], &b"question that"[..], &b""[..], &b"xyz!"[..]] {
        assert_eq!(u.encode(input).unwrap(), t.encode(input).unwrap());
    }
    let ids = t.encode(b"not the question").unwrap();
    assert_eq!(u.decode(&ids).unwrap(), t.decode(&ids).unwrap());
    assert_eq!(u.to_binary().unwrap(), bytes);
}

#[test]
fn save_load_empty_corpus() {
    let t = built(400, vec![SpecialToken::Eos], b"");
    assert_eq!(vocab_len(&t), 257);
    let bytes = t.to_binary().unwrap();
    let u = BpeTokenizer::from_binary(&bytes).unwrap();
    assert_eq!(u.encode(b"hi there").unwrap(), t.encode(b"hi there").unwrap());
    assert_eq!(u.encode(b"hi there").unwrap(), vec![104, 105, 32, 116, 104, 101, 114, 101, 256]);
}

fn le(v: u32) -> Vec<u8> {
    v.to_le_bytes().to_vec()
}

#[test]
fn binary_layout_is_exact() {
    let t = built(260, vec![SpecialToken::Eos], b"aaaa");
    let mut want: Vec<u8> = Vec::new();
    want.extend(le(1));
    want.extend(le(260));
    want.push(0);
    want.extend(le(259));
    for i in 0..256u32 {
        want.extend(le(1));
        want.push(i as u8);
    }
    for piece in [&b"<|eos|>"[..], &b"aa"[..], &b"aaaa"[..]] {
        want.extend(le(piece.len() as u32));
        want.extend_from_slice(piece);
    }
    want.extend(le(1));
    want.push(0);
    want.extend(le(256));
    // ranks: 0 then 1, with no gap
    want.extend(le(2));
    for (a, b, r) in [(97u32, 97u32, 0u32), (257, 257, 1)] {
        want.extend(le(a));
        want.extend(le(b));
        want.extend(le(r));
    }
    want.extend(le(2));
    for (a, b, m) in [(97u32, 97u32, 257u32), (257, 257, 258)] {
        want.extend(le(a));
        want.extend(le(b));
        want.extend(le(m));
    }
    assert_eq!(t.to_binary().unwrap(), want);
}

#[test]
fn load_reads_count_before_target() {
    // two special tokens, target 300
    let mut b: Vec<u8> = Vec::new();
    b.extend(le(2));
    b.extend(le(300));
    b.push(2);
    b.push(0);
    b.extend(le(0));
    b.extend(le(0));
    b.extend(le(0));
    b.extend(le(0));
    let t = BpeTokenizer::from_binary(&b).unwrap();
    assert_eq!(t.decode(&[]).unwrap(), Vec::<u8>::new());
    let back = t.to_binary().unwrap();
    assert_eq!(back, b);
}

#[test]
fn load_rejects_bad_tag() {
    let mut b: Vec<u8> = Vec::new();
    b.extend(le(1));
    b.extend(le(300));
    b.push(7);
    assert_eq!(BpeTokenizer::from_binary(&b).err(), Some("Invalid special token byte".to_string()));
}

#[test]
fn load_rejects_truncated_data() {
    let t = built(270, vec![], b"abc abc");
    let bytes = t.to_binary().unwrap();
    let cut = &bytes[..bytes.len() - 1];
    assert_eq!(BpeTokenizer::from_binary(cut).err(), Some("failed to fill whole buffer".to_string()));
    assert_eq!(BpeTokenizer::from_binary(&[1, 0]).err(), Some("failed to fill whole buffer".to_string()));
}

#[test]
fn load_later_entry_wins() {
    // the rank table names (97, 98) twice; the later rank stands
    let mut b: Vec<u8> = Vec::new();
    b.extend(le(0));
    b.extend(le(300));
    b.extend(le(0));
    b.extend(le(0));
    b.extend(le(2));
    for (x, y, r) in [(97u32, 98u32, 5u32), (97, 98, 1)] {
        b.extend(le(x));
        b.extend(le(y));
        b.extend(le(r));
    }
    b.extend(le(0));
    let t = BpeTokenizer::from_binary(&b).unwrap();
    let out = t.to_binary().unwrap();
    let mut want: Vec<u8> = Vec::new();
    want.extend(le(0));
    want.extend(le(300));
    want.extend(le(0));
    want.extend(le(0));
    want.extend(le(1));
    want.extend(le(97));
    want.extend(le(98));
    want.extend(le(1));
    want.extend(le(0));
    assert_eq!(out, want);
}
