use vstd::prelude::*;
use crate::special::{BpeConfig, SpecialToken, special_repr};
use crate::tables::{
    Entry, lookup, lookup_exec, upsert_exec, is_ordered, unique_pairs, lemma_lookup_push,
    lemma_lookup_upsert, lemma_without_absent, lemma_insert_keeps_order, lemma_insert_len_last,
};
use crate::words::{
    words_of, words_view, pretokenize, merge_pair, lemma_merged_len, total_len, ids_below,
    has_pair, lemma_merged_ids_below, lemma_words_len, lemma_words_ids_below,
};
use crate::model::{
    TokenizerModel, TrainState, decoded, ids_known, concat_words, encode_word, encode_words,
    lowest_upto, lowest_pair, lemma_lowest_upto_occurs, mergeable, train, train_step, train_start,
    built_model, seed_vocab, special_id, merge_id, lemma_id_of, lemma_id_of_found,
    lemma_special_id_range, lemma_count_occurs, lemma_merge_all_len, merges_consistent,
    merge_sound, is_merge_target, merge_created_ids, lemma_vocab_count,
    words_bytes_len, words_known, lemma_words_bytes_extend, lemma_words_bytes_merge,
    lemma_words_bytes_bound, lemma_pair_bytes_le, lemma_word_bytes_le,
};
use crate::train::{count_pairs, select_best, join_bytes, find_id, merge_words};
use crate::wire::write_u32;
use crate::codec::{
    model_bytes, parse_model, write_tags, write_vocab, write_registry, write_entries, read_count,
    read_tags, read_vocab, read_registry, read_table,
};

verus! {

pub open spec fn small_vocab_msg() -> Seq<char> {
    "Please use a vocabulary size of at least 256"@
}

pub open spec fn not_built_msg() -> Seq<char> {
    "Tokenizer not built yet"@
}

pub open spec fn unknown_token_msg() -> Seq<char> {
    "Token not found"@
}

/// The bytes of each vocabulary entry.
pub open spec fn vocab_view(v: Seq<Vec<u8>>) -> Seq<Seq<u8>> {
    v.map_values(|b: Vec<u8>| b@)
}

/// The ids that encoding `data` gives under the tables of `m`.
pub open spec fn encoded(m: TokenizerModel, data: Seq<u8>) -> Seq<u32> {
    concat_words(encode_words(words_of(data, m.eow, m.eos), m.ranks, m.targets))
}

/// A byte-pair-encoding tokenizer: a vocabulary learned from a corpus, and
/// the merge rules that reproduce it on new input.
pub struct BpeTokenizer {
    vocab: Vec<Vec<u8>>,
    config: BpeConfig,
    eos: Option<u32>,
    unk: Option<u32>,
    eow: Option<u32>,
    ranks: Vec<Entry>,
    targets: Vec<Entry>,
    built: bool,
}

impl View for BpeTokenizer {
    type V = TokenizerModel;

    closed spec fn view(&self) -> TokenizerModel {
        TokenizerModel {
            vocab_size: self.config.vocab_size,
            config_specials: self.config.special_tokens@,
            vocab: vocab_view(self.vocab@),
            eos: self.eos,
            unk: self.unk,
            eow: self.eow,
            ranks: self.ranks@,
            targets: self.targets@,
            built: self.built,
        }
    }
}

impl BpeTokenizer {
    /// An empty, unbuilt tokenizer; fails when the vocabulary target is
    /// below 256.
    pub fn new(config: BpeConfig) -> (r: Result<BpeTokenizer, String>)
        ensures
            config.vocab_size < 256 ==> (r matches Err(e) && e@ == small_vocab_msg()),
            config.vocab_size >= 256 ==> (r matches Ok(t) && t@ == (TokenizerModel {
                vocab_size: config.vocab_size,
                config_specials: config.special_tokens@,
                vocab: seq![],
                eos: None,
                unk: None,
                eow: None,
                ranks: seq![],
                targets: seq![],
                built: false,
            })),
    {
        if config.vocab_size < 256 {
            return Err("Please use a vocabulary size of at least 256".to_string());
        }
        let t = BpeTokenizer {
            vocab: Vec::new(),
            config,
            eos: None,
            unk: None,
            eow: None,
            ranks: Vec::new(),
            targets: Vec::new(),
            built: false,
        };
        assert(vocab_view(t.vocab@) =~= seq![]);
        Ok(t)
    }

    /// The bytes of `tokens`, one token after the other; fails before the
    /// tokenizer is built, or on an id with no entry.
    pub fn decode(&self, tokens: &[u32]) -> (r: Result<Vec<u8>, String>)
        ensures
            !self@.built ==> (r matches Err(e) && e@ == not_built_msg()),
            self@.built && !ids_known(self@.vocab, tokens@) ==> (r matches Err(e) && e@ == unknown_token_msg()),
            self@.built && ids_known(self@.vocab, tokens@) ==> (r matches Ok(b) && b@ == decoded(self@.vocab, tokens@)),
    {
        if !self.built {
            return Err("Tokenizer not built yet".to_string());
        }
        let mut bytes: Vec<u8> = Vec::new();
        let mut i: usize = 0;
        while i < tokens.len()
            invariant
                i <= tokens@.len(),
                self.built,
                ids_known(self@.vocab, tokens@.subrange(0, i as int)),
                bytes@ == decoded(self@.vocab, tokens@.subrange(0, i as int)),
            decreases tokens@.len() - i,
        {
            let id = tokens[i] as usize;
            assert(tokens@.subrange(0, i as int + 1).drop_last() =~= tokens@.subrange(0, i as int));
            if id >= self.vocab.len() {
                assert(!ids_known(self@.vocab, tokens@)) by {
                    assert(tokens@[i as int] == id);
                }
                return Err("Token not found".to_string());
            }
            let piece = &self.vocab[id];
            let mut j: usize = 0;
            let ghost start = bytes@;
            while j < piece.len()
                invariant
                    j <= piece@.len(),
                    bytes@ == start + piece@.subrange(0, j as int),
                decreases piece@.len() - j,
            {
                bytes.push(piece[j]);
                assert(start + piece@.subrange(0, j as int + 1) =~= (start + piece@.subrange(0, j as int)).push(piece[j as int]));
                j = j + 1;
            }
            assert(piece@.subrange(0, piece@.len() as int) =~= piece@);
            assert(ids_known(self@.vocab, tokens@.subrange(0, i as int + 1)));
            i = i + 1;
        }
        assert(tokens@.subrange(0, tokens@.len() as int) =~= tokens@);
        Ok(bytes)
    }

    /// Learns the vocabulary from `data`: seeds ids 0 to 255 with the single
    /// bytes, registers the configured special tokens, then merges the most
    /// frequent adjacent pair (the smallest such pair on a tie) until the
    /// vocabulary reaches its target or no pair is left (see `train`).
    pub fn build(&mut self, data: &[u8])
        requires
            256 + old(self)@.config_specials.len() + 2 * data@.len() + 2 <= u32::MAX,
        ensures
            final(self)@ == built_model(old(self)@, data@),
            merges_consistent(final(self)@),
            final(self)@.vocab.len() <= if old(self)@.vocab_size >= 256 + old(self)@.config_specials.len() {
                old(self)@.vocab_size as int
            } else {
                256 + old(self)@.config_specials.len() as int
            },
            final(self)@.vocab.len() - (256 + old(self)@.config_specials.len()) <= final(self)@.ranks.len(),
            forall|id: int| 256 + old(self)@.config_specials.len() <= id < final(self)@.vocab.len()
                ==> #[trigger] is_merge_target(final(self)@.targets, id),
            final(self)@.vocab.len() == 256 + old(self)@.config_specials.len()
                + merge_created_ids(final(self)@.targets, 256 + old(self)@.config_specials.len() as int).len(),
            forall|k: int| 0 <= k < final(self)@.ranks.len() ==> #[trigger] final(self)@.ranks[k].2 == k,
            forall|a: u32, b: u32| (#[trigger] lookup(final(self)@.ranks, a, b) is Some) == (lookup(final(self)@.targets, a, b) is Some),
            is_ordered(final(self)@.ranks),
            unique_pairs(final(self)@.ranks),
            is_ordered(final(self)@.targets),
            unique_pairs(final(self)@.targets),
            final(self)@.vocab.len() <= u32::MAX,
            forall|k: int| 0 <= k < final(self)@.vocab.len() ==> (#[trigger] final(self)@.vocab[k]).len() <= 14 * data@.len() + 14,
            final(self)@.ranks.len() <= u32::MAX,
            final(self)@.targets.len() == final(self)@.ranks.len(),
    {
        let ghost specials = self.config.special_tokens@;
        let ghost vsize = self.config.vocab_size as nat;
        let mut vocab: Vec<Vec<u8>> = Vec::new();
        let mut i: usize = 0;
        while i < 256
            invariant
                i <= 256,
                vocab@.len() == i,
                vocab_view(vocab@) == Seq::new(i as nat, |k: int| seq![k as u8]),
            decreases 256 - i,
        {
            let mut b: Vec<u8> = Vec::new();
            b.push(i as u8);
            assert(b@ =~= seq![i as u8]);
            let ghost before = vocab@;
            vocab.push(b);
            proof {
                assert forall|k: int| 0 <= k < i + 1 implies #[trigger] vocab_view(vocab@)[k] == seq![k as u8] by {
                    if k < i {
                        assert(vocab@[k] == before[k]);
                        assert(vocab_view(before)[k] == seq![k as u8]);
                    }
                }
                assert(vocab_view(vocab@) =~= Seq::new(i as nat + 1, |k: int| seq![k as u8]));
            }
            i = i + 1;
        }
        let mut eos: Option<u32> = None;
        let mut unk: Option<u32> = None;
        let mut eow: Option<u32> = None;
        let mut s: usize = 0;
        assert(seed_vocab(specials.take(0)) =~= vocab_view(vocab@));
        while s < self.config.special_tokens.len()
            invariant
                s <= specials.len(),
                specials == self.config.special_tokens@,
                256 + specials.len() + 2 <= u32::MAX,
                vocab@.len() == 256 + s,
                vocab_view(vocab@) == seed_vocab(specials.take(s as int)),
                eos == special_id(specials.take(s as int), SpecialToken::Eos),
                unk == special_id(specials.take(s as int), SpecialToken::Unk),
                eow == special_id(specials.take(s as int), SpecialToken::Eow),
            decreases specials.len() - s,
        {
            let t = self.config.special_tokens[s];
            let id = (256 + s) as u32;
            match t {
                SpecialToken::Eos => eos = Some(id),
                SpecialToken::Unk => unk = Some(id),
                SpecialToken::Eow => eow = Some(id),
            }
            let ghost before = vocab@;
            vocab.push(t.repr());
            proof {
                let t1 = specials.take(s as int + 1);
                assert(t1.drop_last() =~= specials.take(s as int));
                assert(t1.last() == t);
                let sv = seed_vocab(t1);
                let sv0 = seed_vocab(specials.take(s as int));
                assert forall|k: int| 0 <= k < 256 + s + 1 implies #[trigger] vocab_view(vocab@)[k] == sv[k] by {
                    if k < 256 + s {
                        assert(vocab@[k] == before[k]);
                        assert(vocab_view(before)[k] == sv0[k]);
                        if k >= 256 {
                            assert(t1[k - 256] == specials.take(s as int)[k - 256]);
                        }
                    }
                }
                assert(vocab_view(vocab@) =~= sv);
            }
            s = s + 1;
        }
        assert(specials.take(specials.len() as int) =~= specials);
        let mut words = pretokenize(data, eow, eos);
        let ghost base = 256 + specials.len();
        let ghost st0 = train_start(specials, data@);
        let ghost t0 = total_len(words_view(words@));
        proof {
            lemma_words_len(data@, eow, eos);
            assert(st0 == TrainState { vocab: vocab_view(vocab@), ranks: seq![], targets: seq![], words: words_view(words@) });
            lemma_special_id_range(specials, SpecialToken::Eow);
            lemma_special_id_range(specials, SpecialToken::Eos);
            lemma_words_ids_below(data@, eow, eos, vocab@.len());
            let v0 = vocab_view(vocab@);
            assert forall|k: int| 0 <= k < v0.len() implies (#[trigger] v0[k]).len() <= 7 by {
                if k >= 256 {
                    let t = specials[k - 256];
                    assert(v0[k] == special_repr(t));
                }
            }
            lemma_words_bytes_bound(v0, words_view(words@), v0.len());
        }
        let mut ranks: Vec<Entry> = Vec::new();
        let mut targets: Vec<Entry> = Vec::new();
        loop
            invariant
                specials == self.config.special_tokens@,
                vsize == self.config.vocab_size,
                base == 256 + specials.len(),
                t0 <= 2 * data@.len() + 1,
                base + 2 * data@.len() + 2 <= u32::MAX,
                train(TrainState { vocab: vocab_view(vocab@), ranks: ranks@, targets: targets@, words: words_view(words@) }, vsize)
                    == train(st0, vsize),
                base <= vocab@.len(),
                vocab@.len() + total_len(words_view(words@)) <= base + t0,
                ranks@.len() + total_len(words_view(words@)) <= t0,
                vocab@.len() - base <= ranks@.len(),
                vocab@.len() <= if vsize >= base { vsize as int } else { base as int },
                forall|k: int| 0 <= k < base ==> #[trigger] vocab_view(vocab@)[k] == seed_vocab(specials)[k],
                forall|w: int| 0 <= w < words_view(words@).len() ==> ids_below(#[trigger] words_view(words@)[w], vocab@.len()),
                forall|k: int| 0 <= k < ranks@.len() ==> #[trigger] ranks@[k].2 == k,
                is_ordered(ranks@),
                unique_pairs(ranks@),
                is_ordered(targets@),
                unique_pairs(targets@),
                forall|a: u32, b: u32| (#[trigger] lookup(ranks@, a, b) is Some) == (lookup(targets@, a, b) is Some),
                forall|a: u32, b: u32| #[trigger] merge_sound(vocab_view(vocab@), targets@, a, b),
                forall|id: int| base <= id < vocab@.len() ==> #[trigger] is_merge_target(targets@, id),
                targets@.len() == ranks@.len(),
                words_bytes_len(vocab_view(vocab@), words_view(words@)) <= 7 * t0,
                forall|k: int| 0 <= k < vocab@.len() ==> (#[trigger] vocab_view(vocab@)[k]).len() <= 7 * t0 + 7,
            ensures
                train(TrainState { vocab: vocab_view(vocab@), ranks: ranks@, targets: targets@, words: words_view(words@) }, vsize)
                    == (TrainState { vocab: vocab_view(vocab@), ranks: ranks@, targets: targets@, words: words_view(words@) }),
            decreases total_len(words_view(words@)),
        {
            if vocab.len() >= self.config.vocab_size {
                break;
            }
            let counts = count_pairs(&words);
            let best = select_best(&words, &counts);
            let (a, b) = match best {
                None => {
                    break;
                },
                Some(p) => p,
            };
            let ghost ws = words_view(words@);
            let ghost cur = TrainState { vocab: vocab_view(vocab@), ranks: ranks@, targets: targets@, words: ws };
            proof {
                lemma_count_occurs(ws, a, b);
            }
            let ghost wi = choose|w: int| 0 <= w < ws.len() && has_pair(#[trigger] ws[w], a, b);
            let ghost ki = choose|k: int| 0 <= k && k + 1 < ws[wi].len() && ws[wi][k] == a && #[trigger] ws[wi][k + 1] == b;
            proof {
                assert(ids_below(ws[wi], vocab@.len()));
                assert(ws[wi][ki] < vocab@.len());
                assert(ws[wi][ki + 1] < vocab@.len());
                lemma_pair_bytes_le(vocab_view(vocab@), ws[wi], ki);
                lemma_word_bytes_le(vocab_view(vocab@), ws, wi);
                assert forall|i: int| 0 <= i < ws.len() implies ids_known(vocab_view(vocab@), #[trigger] ws[i]) by {
                    assert(ids_below(ws[i], vocab@.len()));
                }
            }
            let bytes = join_bytes(&vocab[a as usize], &vocab[b as usize]);
            let ghost old_vocab = vocab_view(vocab@);
            assert(bytes@ == old_vocab[a as int] + old_vocab[b as int]);
            let found = find_id(&vocab, &bytes);
            proof {
                lemma_id_of(old_vocab, bytes@);
            }
            let m: u32 = match found {
                Some(k) => k as u32,
                None => {
                    vocab.push(bytes);
                    (vocab.len() - 1) as u32
                },
            };
            let ghost new_vocab = vocab_view(vocab@);
            proof {
                assert(bytes@.len() <= 7 * t0);
                if found is None {
                    assert(new_vocab =~= old_vocab.push(bytes@));
                    lemma_words_bytes_extend(old_vocab, bytes@, ws);
                }
                assert(words_known(new_vocab, ws)) by {
                    assert forall|i: int| 0 <= i < ws.len() implies ids_known(new_vocab, #[trigger] ws[i]) by {
                        assert(ids_known(old_vocab, ws[i]));
                    }
                }
                assert(words_bytes_len(new_vocab, ws) <= 7 * t0);
                assert forall|k: int| 0 <= k < new_vocab.len() implies (#[trigger] new_vocab[k]).len() <= 7 * t0 + 7 by {
                    if k < old_vocab.len() {
                        assert(new_vocab[k] == old_vocab[k]);
                    }
                }
                assert(m == merge_id(old_vocab, a, b));
                if found is None {
                    assert(new_vocab =~= old_vocab.push(bytes@));
                } else {
                    assert(new_vocab == old_vocab);
                }
                assert(new_vocab == train_step(cur, (a, b)).vocab);
                assert(new_vocab[m as int] == new_vocab[a as int] + new_vocab[b as int]);
            }
            let ghost old_ranks = ranks@;
            let ghost old_targets = targets@;
            let fresh = lookup_exec(&ranks, a, b).is_none();
            proof {
                if found is None && !fresh {
                    assert(lookup(old_targets, a, b) is Some);
                    assert(merge_sound(old_vocab, old_targets, a, b));
                    let t = lookup(old_targets, a, b).unwrap();
                    lemma_id_of_found(old_vocab, bytes@, t as int);
                }
            }
            if fresh {
                let r = ranks.len() as u32;
                ranks.push((a, b, r));
                upsert_exec(&mut targets, (a, b, m));
                proof {
                    lemma_without_absent(old_targets, a, b);
                    lemma_insert_len_last(old_targets, (a, b, m));
                    lemma_insert_keeps_order(old_targets, (a, b, m));
                    assert(ranks@.drop_last() =~= old_ranks);
                    if old_ranks.len() > 0 {
                        assert(old_ranks.last().2 == old_ranks.len() - 1);
                    }
                    assert forall|x: u32, y: u32| (#[trigger] lookup(ranks@, x, y) is Some) == (lookup(targets@, x, y) is Some) by {
                        lemma_lookup_push(old_ranks, (a, b, r), x, y);
                        lemma_lookup_upsert(old_targets, (a, b, m), x, y);
                    }
                }
            }
            proof {
                assert forall|x: u32, y: u32| #[trigger] merge_sound(new_vocab, targets@, x, y) by {
                    assert(merge_sound(old_vocab, old_targets, x, y));
                    if fresh {
                        lemma_lookup_upsert(old_targets, (a, b, m), x, y);
                    }
                    if !(fresh && x == a && y == b) {
                        assert(lookup(old_targets, x, y) == lookup(targets@, x, y));
                    }
                }
                assert forall|id: int| base <= id < vocab@.len() implies #[trigger] is_merge_target(targets@, id) by {
                    if id == old_vocab.len() {
                        assert(found is None);
                        if !fresh {
                            assert(lookup(old_targets, a, b) is Some);
                            assert(merge_sound(old_vocab, old_targets, a, b));
                            let t = lookup(old_targets, a, b).unwrap();
                            lemma_id_of_found(old_vocab, bytes@, t as int);
                        }
                        assert(fresh);
                        lemma_lookup_upsert(old_targets, (a, b, m), a, b);
                        assert(lookup(targets@, a, b) == Some(id as u32));
                    } else {
                        assert(is_merge_target(old_targets, id));
                        let (x, y) = choose|x: u32, y: u32| #[trigger] lookup(old_targets, x, y) == Some(id as u32);
                        if fresh {
                            lemma_lookup_upsert(old_targets, (a, b, m), x, y);
                            assert(lookup(old_ranks, x, y) is Some);
                        }
                        assert(lookup(targets@, x, y) == Some(id as u32));
                    }
                    assert(is_merge_target(targets@, id));
                }
                assert forall|k: int| 0 <= k < base implies #[trigger] new_vocab[k] == seed_vocab(specials)[k] by {
                    assert(new_vocab[k] == old_vocab[k]);
                }
            }
            words = merge_words(&words, a, b, m);
            proof {
                let ws2 = words_view(words@);
                lemma_merge_all_len(ws, a, b, m);
                lemma_words_bytes_merge(new_vocab, ws, a, b, m);
                assert forall|w: int| 0 <= w < ws2.len() implies ids_below(#[trigger] ws2[w], vocab@.len()) by {
                    lemma_merged_ids_below(ws[w], a, b, m, vocab@.len());
                }
                assert(TrainState { vocab: vocab_view(vocab@), ranks: ranks@, targets: targets@, words: ws2 }
                    == train_step(cur, (a, b)));
            }
        }
        proof {
            lemma_vocab_count(vocab_view(vocab@), targets@, base as int);
            assert forall|k: int| 0 <= k < vocab@.len() implies (#[trigger] vocab_view(vocab@)[k]).len() <= 14 * data@.len() + 14 by {
                assert(vocab_view(vocab@)[k].len() <= 7 * t0 + 7);
            }
        }
        self.vocab = vocab;
        self.eos = eos;
        self.unk = unk;
        self.eow = eow;
        self.ranks = ranks;
        self.targets = targets;
        self.built = true;
    }

    /// The binary form of the tokenizer (see `model_bytes`); fails before
    /// the tokenizer is built.
    pub fn to_binary(&self) -> (r: Result<Vec<u8>, String>)
        ensures
            !self@.built ==> (r matches Err(e) && e@ == not_built_msg()),
            self@.built ==> (r matches Ok(b) && b@ == model_bytes(self@)),
    {
        if !self.built {
            return Err("Tokenizer not built yet".to_string());
        }
        let mut out: Vec<u8> = Vec::new();
        write_u32(&mut out, self.config.special_tokens.len() as u32);
        write_u32(&mut out, self.config.vocab_size as u32);
        write_tags(&mut out, &self.config.special_tokens);
        write_u32(&mut out, self.vocab.len() as u32);
        write_vocab(&mut out, &self.vocab);
        write_registry(&mut out, self.eos, self.unk, self.eow);
        write_u32(&mut out, self.ranks.len() as u32);
        write_entries(&mut out, &self.ranks);
        write_u32(&mut out, self.targets.len() as u32);
        write_entries(&mut out, &self.targets);
        assert(out@ =~= model_bytes(self@));
        Ok(out)
    }

    /// The built tokenizer that `data` describes (see `parse_model`); fails
    /// when the data ends early or holds an unknown special-token tag.
    pub fn from_binary(data: &[u8]) -> (r: Result<BpeTokenizer, String>)
        ensures
            match parse_model(data@) {
                Ok(m) => r matches Ok(t) && t@ == m,
                Err(msg) => r matches Err(e) && e@ == msg,
            },
    {
        let mut pos: usize = 0;
        let ns = read_count(data, &mut pos)?;
        let vs = read_count(data, &mut pos)?;
        let specials = read_tags(data, &mut pos, ns)?;
        let nv = read_count(data, &mut pos)?;
        let vocab = read_vocab(data, &mut pos, nv)?;
        let nr = read_count(data, &mut pos)?;
        let (eos, unk, eow) = read_registry(data, &mut pos, nr)?;
        let ranks = read_table(data, &mut pos)?;
        let targets = read_table(data, &mut pos)?;
        let t = BpeTokenizer {
            vocab,
            config: BpeConfig { vocab_size: vs as usize, special_tokens: specials },
            eos,
            unk,
            eow,
            ranks,
            targets,
            built: true,
        };
        Ok(t)
    }

    /// The leftmost mergeable pair of lowest rank in `w`.
    fn lowest_pair_exec(&self, w: &Vec<u32>) -> (r: Option<(u32, u32)>)
        ensures
            r == lowest_pair(w@, self@.ranks, self@.targets),
    {
        if w.len() < 2 {
            return None;
        }
        let mut best: Option<(u32, u32)> = None;
        let mut best_rank: u32 = 0;
        let mut k: usize = 0;
        while k < w.len() - 1
            invariant
                k + 1 <= w@.len(),
                best == lowest_upto(w@, k as int, self@.ranks, self@.targets),
                best matches Some(p) ==> lookup(self@.ranks, p.0, p.1) == Some(best_rank),
            decreases w@.len() - k,
        {
            let a = w[k];
            let b = w[k + 1];
            let rank = lookup_exec(&self.ranks, a, b);
            let target = lookup_exec(&self.targets, a, b);
            match (rank, target) {
                (Some(rk), Some(_)) => {
                    if best.is_none() || rk < best_rank {
                        best = Some((a, b));
                        best_rank = rk;
                    }
                },
                _ => {},
            }
            k = k + 1;
        }
        best
    }

    /// One word encoded (see `encode_word`).
    fn encode_word_exec(&self, w: &Vec<u32>) -> (r: Vec<u32>)
        ensures
            r@ == encode_word(w@, self@.ranks, self@.targets),
    {
        let mut cur = w.clone();
        assert(cur@ =~= w@);
        loop
            invariant
                encode_word(cur@, self@.ranks, self@.targets) == encode_word(w@, self@.ranks, self@.targets),
            decreases cur@.len(),
        {
            match self.lowest_pair_exec(&cur) {
                None => {
                    return cur;
                },
                Some(p) => {
                    proof {
                        lemma_lowest_upto_occurs(cur@, cur@.len() - 1, self@.ranks, self@.targets);
                    }
                    let m = lookup_exec(&self.targets, p.0, p.1).unwrap();
                    proof {
                        lemma_merged_len(cur@, p.0, p.1, m);
                    }
                    cur = merge_pair(&cur, p.0, p.1, m);
                },
            }
        }
    }

    /// The ids of `data`: its words (see `words_of`), each encoded by
    /// replaying the merges in rank order, one after the other; fails
    /// before the tokenizer is built.
    pub fn encode(&self, data: &[u8]) -> (r: Result<Vec<u32>, String>)
        ensures
            !self@.built ==> (r matches Err(e) && e@ == not_built_msg()),
            self@.built ==> (r matches Ok(ids) && ids@ == encoded(self@, data@)),
    {
        if !self.built {
            return Err("Tokenizer not built yet".to_string());
        }
        let words = pretokenize(data, self.eow, self.eos);
        let ghost ws = words_view(words@);
        let mut out: Vec<u32> = Vec::new();
        let mut i: usize = 0;
        while i < words.len()
            invariant
                i <= words@.len(),
                ws == words_view(words@),
                out@ == concat_words(encode_words(ws.subrange(0, i as int), self@.ranks, self@.targets)),
            decreases words@.len() - i,
        {
            let enc = self.encode_word_exec(&words[i]);
            let mut j: usize = 0;
            let ghost start = out@;
            while j < enc.len()
                invariant
                    j <= enc@.len(),
                    out@ == start + enc@.subrange(0, j as int),
                decreases enc@.len() - j,
            {
                out.push(enc[j]);
                assert(start + enc@.subrange(0, j as int + 1) =~= (start + enc@.subrange(0, j as int)).push(enc[j as int]));
                j = j + 1;
            }
            proof {
                assert(enc@.subrange(0, enc@.len() as int) =~= enc@);
                let e1 = encode_words(ws.subrange(0, i as int + 1), self@.ranks, self@.targets);
                assert(e1.drop_last() =~= encode_words(ws.subrange(0, i as int), self@.ranks, self@.targets));
                assert(e1.last() == enc@);
            }
            i = i + 1;
        }
        assert(ws.subrange(0, ws.len() as int) =~= ws);
        Ok(out)
    }
}

} // verus!
