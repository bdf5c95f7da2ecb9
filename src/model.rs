use vstd::prelude::*;
use crate::special::{SpecialToken, special_repr};
use crate::tables::{Entry, lookup, upsert};
use crate::words::{merged, has_pair, total_len, lemma_merged_len, words_of};

verus! {

/// The state of a tokenizer as the contracts see it.
pub struct TokenizerModel {
    /// The configured vocabulary-size target.
    pub vocab_size: usize,
    /// The configured special tokens, in order.
    pub config_specials: Seq<SpecialToken>,
    /// The bytes of each token id.
    pub vocab: Seq<Seq<u8>>,
    pub eos: Option<u32>,
    pub unk: Option<u32>,
    pub eow: Option<u32>,
    /// The merge-rank table, entries `(a, b, rank)`.
    pub ranks: Seq<Entry>,
    /// The pair-to-token table, entries `(a, b, merged id)`.
    pub targets: Seq<Entry>,
    pub built: bool,
}

/// The bytes of a sequence of ids, one after the other.
pub open spec fn decoded(vocab: Seq<Seq<u8>>, ids: Seq<u32>) -> Seq<u8>
    decreases ids.len(),
{
    if ids.len() == 0 {
        seq![]
    } else {
        decoded(vocab, ids.drop_last()) + vocab[ids.last() as int]
    }
}

/// Every id names an entry of `vocab`.
pub open spec fn ids_known(vocab: Seq<Seq<u8>>, ids: Seq<u32>) -> bool {
    forall|i: int| 0 <= i < ids.len() ==> (#[trigger] ids[i] as int) < vocab.len()
}

pub proof fn lemma_decoded_concat(v: Seq<Seq<u8>>, x: Seq<u32>, y: Seq<u32>)
    ensures
        decoded(v, x + y) == decoded(v, x) + decoded(v, y),
    decreases y.len(),
{
    if y.len() == 0 {
        assert(x + y =~= x);
        assert(decoded(v, x) + decoded(v, y) =~= decoded(v, x));
    } else {
        lemma_decoded_concat(v, x, y.drop_last());
        assert((x + y).drop_last() =~= x + y.drop_last());
        assert(decoded(v, x) + decoded(v, y.drop_last()) + v[y.last() as int]
            =~= decoded(v, x) + (decoded(v, y.drop_last()) + v[y.last() as int]));
    }
}

pub proof fn lemma_ids_known_concat(v: Seq<Seq<u8>>, x: Seq<u32>, y: Seq<u32>)
    ensures
        ids_known(v, x + y) == (ids_known(v, x) && ids_known(v, y)),
{
    if ids_known(v, x) && ids_known(v, y) {
        assert forall|i: int| 0 <= i < (x + y).len() implies (#[trigger] (x + y)[i] as int) < v.len() by {
            if i >= x.len() {
                assert((x + y)[i] == y[i - x.len()]);
            }
        }
    }
    if ids_known(v, x + y) {
        assert forall|i: int| 0 <= i < x.len() implies (#[trigger] x[i] as int) < v.len() by {
            assert((x + y)[i] == x[i]);
        }
        assert forall|i: int| 0 <= i < y.len() implies (#[trigger] y[i] as int) < v.len() by {
            assert((x + y)[x.len() + i] == y[i]);
        }
    }
}

pub proof fn lemma_decoded_single(v: Seq<Seq<u8>>, x: u32)
    ensures
        decoded(v, seq![x]) == v[x as int],
{
    assert(seq![x].drop_last() =~= seq![]);
    assert(decoded(v, seq![]) + v[x as int] =~= v[x as int]);
}

pub proof fn lemma_merged_decoded(v: Seq<Seq<u8>>, w: Seq<u32>, a: u32, b: u32, m: u32)
    requires
        (a as int) < v.len(),
        (b as int) < v.len(),
        (m as int) < v.len(),
        v[m as int] == v[a as int] + v[b as int],
        ids_known(v, w),
    ensures
        ids_known(v, merged(w, a, b, m)),
        decoded(v, merged(w, a, b, m)) == decoded(v, w),
    decreases w.len(),
{
    if w.len() >= 2 {
        let rest = w.subrange(2, w.len() as int);
        let tail = w.subrange(1, w.len() as int);
        assert(w =~= seq![w[0]] + tail);
        assert(tail =~= seq![w[1]] + rest);
        lemma_ids_known_concat(v, seq![w[0]], tail);
        lemma_ids_known_concat(v, seq![w[1]], rest);
        lemma_decoded_concat(v, seq![w[0]], tail);
        lemma_decoded_concat(v, seq![w[1]], rest);
        lemma_decoded_single(v, w[0]);
        lemma_decoded_single(v, w[1]);
        if w[0] == a && w[1] == b {
            let s = seq![m] + rest;
            assert(ids_known(v, seq![m]));
            lemma_ids_known_concat(v, seq![m], rest);
            lemma_decoded_concat(v, seq![m], rest);
            lemma_decoded_single(v, m);
            lemma_merged_decoded(v, s, a, b, m);
            assert(v[a as int] + (v[b as int] + decoded(v, rest)) =~= v[m as int] + decoded(v, rest));
        } else {
            lemma_merged_decoded(v, tail, a, b, m);
            let mt = merged(tail, a, b, m);
            lemma_ids_known_concat(v, seq![w[0]], mt);
            lemma_decoded_concat(v, seq![w[0]], mt);
        }
    }
}

/// The number of bytes that the words decode to, all together.
pub open spec fn words_bytes_len(v: Seq<Seq<u8>>, ws: Seq<Seq<u32>>) -> nat
    decreases ws.len(),
{
    if ws.len() == 0 {
        0
    } else {
        words_bytes_len(v, ws.drop_last()) + decoded(v, ws.last()).len()
    }
}

/// Every word holds known ids only.
pub open spec fn words_known(v: Seq<Seq<u8>>, ws: Seq<Seq<u32>>) -> bool {
    forall|i: int| 0 <= i < ws.len() ==> ids_known(v, #[trigger] ws[i])
}

pub proof fn lemma_decoded_extend(v: Seq<Seq<u8>>, x: Seq<u8>, w: Seq<u32>)
    requires
        ids_known(v, w),
    ensures
        decoded(v.push(x), w) == decoded(v, w),
    decreases w.len(),
{
    if w.len() > 0 {
        assert(ids_known(v, w.drop_last())) by {
            assert forall|i: int| 0 <= i < w.drop_last().len() implies (#[trigger] w.drop_last()[i] as int) < v.len() by {
                assert(w.drop_last()[i] == w[i]);
            }
        }
        lemma_decoded_extend(v, x, w.drop_last());
        assert(w.last() == w[w.len() - 1]);
    }
}

pub proof fn lemma_words_bytes_extend(v: Seq<Seq<u8>>, x: Seq<u8>, ws: Seq<Seq<u32>>)
    requires
        words_known(v, ws),
    ensures
        words_bytes_len(v.push(x), ws) == words_bytes_len(v, ws),
    decreases ws.len(),
{
    if ws.len() > 0 {
        assert(words_known(v, ws.drop_last())) by {
            assert forall|i: int| 0 <= i < ws.drop_last().len() implies ids_known(v, #[trigger] ws.drop_last()[i]) by {
                assert(ws.drop_last()[i] == ws[i]);
            }
        }
        lemma_words_bytes_extend(v, x, ws.drop_last());
        assert(ids_known(v, ws[ws.len() - 1]));
        lemma_decoded_extend(v, x, ws.last());
    }
}

pub proof fn lemma_words_bytes_merge(v: Seq<Seq<u8>>, ws: Seq<Seq<u32>>, a: u32, b: u32, m: u32)
    requires
        (a as int) < v.len(),
        (b as int) < v.len(),
        (m as int) < v.len(),
        v[m as int] == v[a as int] + v[b as int],
        words_known(v, ws),
    ensures
        words_known(v, merge_all(ws, a, b, m)),
        words_bytes_len(v, merge_all(ws, a, b, m)) == words_bytes_len(v, ws),
    decreases ws.len(),
{
    let ms = merge_all(ws, a, b, m);
    assert forall|i: int| 0 <= i < ms.len() implies ids_known(v, #[trigger] ms[i]) by {
        assert(ids_known(v, ws[i]));
        lemma_merged_decoded(v, ws[i], a, b, m);
    }
    if ws.len() > 0 {
        let d = ws.drop_last();
        assert(words_known(v, d)) by {
            assert forall|i: int| 0 <= i < d.len() implies ids_known(v, #[trigger] d[i]) by {
                assert(d[i] == ws[i]);
            }
        }
        lemma_words_bytes_merge(v, d, a, b, m);
        assert(ms.drop_last() =~= merge_all(d, a, b, m));
        assert(ids_known(v, ws[ws.len() - 1]));
        lemma_merged_decoded(v, ws.last(), a, b, m);
    }
}

/// Ids of at most seven bytes each decode to at most seven bytes per id.
pub proof fn lemma_decoded_len_bound(v: Seq<Seq<u8>>, w: Seq<u32>)
    requires
        forall|i: int| 0 <= i < w.len() ==> (#[trigger] w[i] as int) < v.len() && v[w[i] as int].len() <= 7,
    ensures
        decoded(v, w).len() <= 7 * w.len(),
    decreases w.len(),
{
    if w.len() > 0 {
        let d = w.drop_last();
        assert forall|i: int| 0 <= i < d.len() implies (#[trigger] d[i] as int) < v.len() && v[d[i] as int].len() <= 7 by {
            assert(d[i] == w[i]);
        }
        lemma_decoded_len_bound(v, d);
        assert(w.last() == w[w.len() - 1]);
    }
}

pub proof fn lemma_words_bytes_bound(v: Seq<Seq<u8>>, ws: Seq<Seq<u32>>, n: nat)
    requires
        n <= v.len(),
        forall|k: int| 0 <= k < n ==> (#[trigger] v[k]).len() <= 7,
        forall|i: int| 0 <= i < ws.len() ==> crate::words::ids_below(#[trigger] ws[i], n),
    ensures
        words_bytes_len(v, ws) <= 7 * total_len(ws),
    decreases ws.len(),
{
    if ws.len() > 0 {
        let d = ws.drop_last();
        assert forall|i: int| 0 <= i < d.len() implies crate::words::ids_below(#[trigger] d[i], n) by {
            assert(d[i] == ws[i]);
        }
        lemma_words_bytes_bound(v, d, n);
        let w = ws.last();
        assert(crate::words::ids_below(ws[ws.len() - 1], n));
        assert forall|i: int| 0 <= i < w.len() implies (#[trigger] w[i] as int) < v.len() && v[w[i] as int].len() <= 7 by {
            assert((w[i] as nat) < n);
        }
        lemma_decoded_len_bound(v, w);
    }
}

/// The two ids of an adjacent pair decode to no more bytes than their word.
pub proof fn lemma_pair_bytes_le(v: Seq<Seq<u8>>, w: Seq<u32>, k: int)
    requires
        0 <= k,
        k + 1 < w.len(),
    ensures
        v[w[k] as int].len() + v[w[k + 1] as int].len() <= decoded(v, w).len(),
{
    let pre = w.take(k);
    let mid = seq![w[k], w[k + 1]];
    let post = w.skip(k + 2);
    assert(w =~= pre + mid + post);
    lemma_decoded_concat(v, pre + mid, post);
    lemma_decoded_concat(v, pre, mid);
    assert(mid =~= seq![w[k]] + seq![w[k + 1]]);
    lemma_decoded_concat(v, seq![w[k]], seq![w[k + 1]]);
    lemma_decoded_single(v, w[k]);
    lemma_decoded_single(v, w[k + 1]);
}

pub proof fn lemma_word_bytes_le(v: Seq<Seq<u8>>, ws: Seq<Seq<u32>>, i: int)
    requires
        0 <= i < ws.len(),
    ensures
        decoded(v, ws[i]).len() <= words_bytes_len(v, ws),
    decreases ws.len(),
{
    if i < ws.len() - 1 {
        lemma_word_bytes_le(v, ws.drop_last(), i);
        assert(ws.drop_last()[i] == ws[i]);
    }
}

/// The id under which `b` is interned; the latest one wins.
pub open spec fn id_of(vocab: Seq<Seq<u8>>, b: Seq<u8>) -> Option<nat>
    decreases vocab.len(),
{
    if vocab.len() == 0 {
        None
    } else if vocab.last() == b {
        Some((vocab.len() - 1) as nat)
    } else {
        id_of(vocab.drop_last(), b)
    }
}

/// The ids of all words, one word after the other.
pub open spec fn concat_words(ws: Seq<Seq<u32>>) -> Seq<u32>
    decreases ws.len(),
{
    if ws.len() == 0 {
        seq![]
    } else {
        concat_words(ws.drop_last()) + ws.last()
    }
}

// ---------------------------------------------------------------------
// Encoding

/// The encoder may merge `(a, b)`: the pair has a rank and a merged id.
pub open spec fn mergeable(ranks: Seq<Entry>, targets: Seq<Entry>, a: u32, b: u32) -> bool {
    lookup(ranks, a, b) is Some && lookup(targets, a, b) is Some
}

/// Among the first `n` adjacent pairs of `w`, the leftmost mergeable pair of
/// lowest rank.
pub open spec fn lowest_upto(w: Seq<u32>, n: int, ranks: Seq<Entry>, targets: Seq<Entry>) -> Option<(u32, u32)>
    decreases n,
{
    if n <= 0 {
        None
    } else {
        let prev = lowest_upto(w, n - 1, ranks, targets);
        let a = w[n - 1];
        let b = w[n];
        if mergeable(ranks, targets, a, b) && (prev is None || lookup(ranks, a, b).unwrap() < lookup(ranks, prev.unwrap().0, prev.unwrap().1).unwrap()) {
            Some((a, b))
        } else {
            prev
        }
    }
}

/// The leftmost mergeable pair of lowest rank in `w`.
pub open spec fn lowest_pair(w: Seq<u32>, ranks: Seq<Entry>, targets: Seq<Entry>) -> Option<(u32, u32)> {
    lowest_upto(w, w.len() - 1, ranks, targets)
}

pub proof fn lemma_lowest_upto_occurs(w: Seq<u32>, n: int, ranks: Seq<Entry>, targets: Seq<Entry>)
    requires
        n < w.len(),
    ensures
        lowest_upto(w, n, ranks, targets) matches Some(p) ==> has_pair(w, p.0, p.1) && mergeable(ranks, targets, p.0, p.1),
    decreases n,
{
    if n > 0 {
        lemma_lowest_upto_occurs(w, n - 1, ranks, targets);
        let a = w[n - 1];
        let b = w[n];
        assert(w[(n - 1) + 1] == b);
    }
}

/// A word encoded: merge its lowest-rank pair everywhere, until no
/// mergeable pair is left.
pub open spec fn encode_word(w: Seq<u32>, ranks: Seq<Entry>, targets: Seq<Entry>) -> Seq<u32>
    decreases w.len(),
{
    match lowest_pair(w, ranks, targets) {
        None => w,
        Some(p) => {
            let m = lookup(targets, p.0, p.1).unwrap();
            proof {
                lemma_lowest_upto_occurs(w, w.len() - 1, ranks, targets);
                lemma_merged_len(w, p.0, p.1, m);
            }
            encode_word(merged(w, p.0, p.1, m), ranks, targets)
        },
    }
}

pub open spec fn encode_words(ws: Seq<Seq<u32>>, ranks: Seq<Entry>, targets: Seq<Entry>) -> Seq<Seq<u32>> {
    ws.map_values(|w: Seq<u32>| encode_word(w, ranks, targets))
}

// ---------------------------------------------------------------------
// Training

/// How often `(a, b)` stands adjacent in `w`.
pub open spec fn word_pair_count(w: Seq<u32>, a: u32, b: u32) -> nat
    decreases w.len(),
{
    if w.len() < 2 {
        0
    } else {
        word_pair_count(w.drop_last(), a, b) + if w[w.len() - 2] == a && w.last() == b { 1nat } else { 0nat }
    }
}

/// How often `(a, b)` stands adjacent within the words (never across two).
pub open spec fn pair_count(ws: Seq<Seq<u32>>, a: u32, b: u32) -> nat
    decreases ws.len(),
{
    if ws.len() == 0 {
        0
    } else {
        pair_count(ws.drop_last(), a, b) + word_pair_count(ws.last(), a, b)
    }
}

/// Lexicographic order of pairs.
pub open spec fn pair_lt(p: (u32, u32), q: (u32, u32)) -> bool {
    p.0 < q.0 || (p.0 == q.0 && p.1 < q.1)
}

/// `p` is at least as good a merge as `q`: more frequent, or as frequent
/// and not after it in pair order.
pub open spec fn beats(ws: Seq<Seq<u32>>, p: (u32, u32), q: (u32, u32)) -> bool {
    pair_count(ws, q.0, q.1) < pair_count(ws, p.0, p.1)
        || (pair_count(ws, q.0, q.1) == pair_count(ws, p.0, p.1) && !pair_lt(q, p))
}

/// `p` occurs, and no pair is more frequent or as frequent and earlier in
/// pair order.
pub open spec fn is_best_pair(ws: Seq<Seq<u32>>, p: (u32, u32)) -> bool {
    pair_count(ws, p.0, p.1) > 0 && forall|q: (u32, u32)| #[trigger] beats(ws, p, q)
}

/// The pair that training merges next, if any pair occurs.
pub open spec fn best_pair(ws: Seq<Seq<u32>>) -> Option<(u32, u32)> {
    if exists|p: (u32, u32)| is_best_pair(ws, p) {
        Some(choose|p: (u32, u32)| is_best_pair(ws, p))
    } else {
        None
    }
}

pub proof fn lemma_best_pair_unique(ws: Seq<Seq<u32>>, p: (u32, u32))
    requires
        is_best_pair(ws, p),
    ensures
        best_pair(ws) == Some(p),
{
    let q = choose|q: (u32, u32)| is_best_pair(ws, q);
    assert(beats(ws, p, q));
    assert(beats(ws, q, p));
}

pub proof fn lemma_word_count_occurs(w: Seq<u32>, a: u32, b: u32)
    requires
        word_pair_count(w, a, b) > 0,
    ensures
        has_pair(w, a, b),
    decreases w.len(),
{
    let n = w.len() as int;
    if w[n - 2] == a && w[n - 1] == b {
        assert(w[(n - 2) + 1] == b);
    } else {
        lemma_word_count_occurs(w.drop_last(), a, b);
        let i = choose|i: int| 0 <= i && i + 1 < w.drop_last().len() && w.drop_last()[i] == a && #[trigger] w.drop_last()[i + 1] == b;
        assert(w[i + 1] == b);
    }
}

/// A pair that occurs stands in some word.
pub proof fn lemma_count_occurs(ws: Seq<Seq<u32>>, a: u32, b: u32)
    requires
        pair_count(ws, a, b) > 0,
    ensures
        exists|i: int| 0 <= i < ws.len() && has_pair(#[trigger] ws[i], a, b),
    decreases ws.len(),
{
    if word_pair_count(ws.last(), a, b) > 0 {
        lemma_word_count_occurs(ws.last(), a, b);
        assert(has_pair(ws[ws.len() - 1], a, b));
    } else {
        lemma_count_occurs(ws.drop_last(), a, b);
        let i = choose|i: int| 0 <= i < ws.drop_last().len() && has_pair(#[trigger] ws.drop_last()[i], a, b);
        assert(ws[i] == ws.drop_last()[i]);
    }
}

/// Every word with each `(a, b)` replaced by `m`.
pub open spec fn merge_all(ws: Seq<Seq<u32>>, a: u32, b: u32, m: u32) -> Seq<Seq<u32>> {
    ws.map_values(|w: Seq<u32>| merged(w, a, b, m))
}

/// Merging shortens the words, strictly where the pair occurs.
pub proof fn lemma_merge_all_len(ws: Seq<Seq<u32>>, a: u32, b: u32, m: u32)
    ensures
        total_len(merge_all(ws, a, b, m)) <= total_len(ws),
        (exists|i: int| 0 <= i < ws.len() && has_pair(#[trigger] ws[i], a, b)) ==> total_len(merge_all(ws, a, b, m)) < total_len(ws),
    decreases ws.len(),
{
    if ws.len() > 0 {
        let t = ws.drop_last();
        lemma_merge_all_len(t, a, b, m);
        lemma_merged_len(ws.last(), a, b, m);
        assert(merge_all(ws, a, b, m).drop_last() =~= merge_all(t, a, b, m));
        if exists|i: int| 0 <= i < ws.len() && has_pair(#[trigger] ws[i], a, b) {
            let i = choose|i: int| 0 <= i < ws.len() && has_pair(#[trigger] ws[i], a, b);
            if i < ws.len() - 1 {
                assert(t[i] == ws[i]);
            }
        }
    }
}

/// The state that training works on.
pub struct TrainState {
    pub vocab: Seq<Seq<u8>>,
    pub ranks: Seq<Entry>,
    pub targets: Seq<Entry>,
    pub words: Seq<Seq<u32>>,
}

/// The id that merging `(a, b)` yields: the id already holding the joined
/// bytes, else the next id.
pub open spec fn merge_id(vocab: Seq<Seq<u8>>, a: u32, b: u32) -> nat {
    match id_of(vocab, vocab[a as int] + vocab[b as int]) {
        Some(i) => i,
        None => vocab.len(),
    }
}

/// One merge of training, of the pair `p`.
pub open spec fn train_step(st: TrainState, p: (u32, u32)) -> TrainState {
    let (a, b) = p;
    let bytes = st.vocab[a as int] + st.vocab[b as int];
    let m = merge_id(st.vocab, a, b);
    let vocab = if id_of(st.vocab, bytes) is Some { st.vocab } else { st.vocab.push(bytes) };
    let fresh = lookup(st.ranks, a, b) is None;
    TrainState {
        vocab,
        ranks: if fresh { st.ranks.push((a, b, st.ranks.len() as u32)) } else { st.ranks },
        targets: if fresh { upsert(st.targets, (a, b, m as u32)) } else { st.targets },
        words: merge_all(st.words, a, b, m as u32),
    }
}

/// Training from `st`: merge the best pair while the vocabulary is below
/// `vocab_size` and some pair occurs.
pub open spec fn train(st: TrainState, vocab_size: nat) -> TrainState
    decreases total_len(st.words),
{
    if st.vocab.len() >= vocab_size {
        st
    } else {
        match best_pair(st.words) {
            None => st,
            Some(p) => {
                proof {
                    let m = merge_id(st.vocab, p.0, p.1) as u32;
                    lemma_count_occurs(st.words, p.0, p.1);
                    lemma_merge_all_len(st.words, p.0, p.1, m);
                }
                train(train_step(st, p), vocab_size)
            },
        }
    }
}

pub proof fn lemma_id_of(vocab: Seq<Seq<u8>>, b: Seq<u8>)
    ensures
        id_of(vocab, b) matches Some(k) ==> k < vocab.len() && vocab[k as int] == b,
    decreases vocab.len(),
{
    if vocab.len() > 0 && vocab.last() != b {
        lemma_id_of(vocab.drop_last(), b);
    }
}

pub proof fn lemma_id_of_found(vocab: Seq<Seq<u8>>, b: Seq<u8>, t: int)
    requires
        0 <= t < vocab.len(),
        vocab[t] == b,
    ensures
        id_of(vocab, b) is Some,
    decreases vocab.len(),
{
    if vocab.last() != b {
        lemma_id_of_found(vocab.drop_last(), b, t);
    }
}

/// Ids 0 to 255 for the single bytes, then one id per configured special
/// token, in order.
pub open spec fn seed_vocab(specials: Seq<SpecialToken>) -> Seq<Seq<u8>> {
    Seq::new(256, |i: int| seq![i as u8]) + specials.map_values(|t: SpecialToken| special_repr(t))
}

/// The id registered for `kind`: the last configured occurrence wins.
pub open spec fn special_id(specials: Seq<SpecialToken>, kind: SpecialToken) -> Option<u32>
    decreases specials.len(),
{
    if specials.len() == 0 {
        None
    } else if specials.last() == kind {
        Some((256 + specials.len() - 1) as u32)
    } else {
        special_id(specials.drop_last(), kind)
    }
}


pub proof fn lemma_special_id_range(specials: Seq<SpecialToken>, kind: SpecialToken)
    requires
        256 + specials.len() <= u32::MAX,
    ensures
        special_id(specials, kind) matches Some(x) ==> 256 <= x < 256 + specials.len(),
    decreases specials.len(),
{
    if specials.len() > 0 && specials.last() != kind {
        lemma_special_id_range(specials.drop_last(), kind);
    }
}

/// Where training starts: the seed vocabulary, empty tables, and the words
/// of the corpus.
pub open spec fn train_start(specials: Seq<SpecialToken>, data: Seq<u8>) -> TrainState {
    TrainState {
        vocab: seed_vocab(specials),
        ranks: seq![],
        targets: seq![],
        words: words_of(
            data,
            special_id(specials, SpecialToken::Eow),
            special_id(specials, SpecialToken::Eos),
        ),
    }
}

/// The tokenizer that building `m` on `data` gives: its configuration
/// kept, everything else learned from the corpus.
pub open spec fn built_model(m: TokenizerModel, data: Seq<u8>) -> TokenizerModel {
    let st = train(train_start(m.config_specials, data), m.vocab_size as nat);
    TokenizerModel {
        vocab_size: m.vocab_size,
        config_specials: m.config_specials,
        vocab: st.vocab,
        eos: special_id(m.config_specials, SpecialToken::Eos),
        unk: special_id(m.config_specials, SpecialToken::Unk),
        eow: special_id(m.config_specials, SpecialToken::Eow),
        ranks: st.ranks,
        targets: st.targets,
        built: true,
    }
}

/// Ids 0 to 255 are the single bytes, and every recorded merge `(a, b) -> t`
/// has `t`'s bytes equal to `a`'s followed by `b`'s.
pub open spec fn merges_consistent(m: TokenizerModel) -> bool {
    &&& m.vocab.len() >= 256
    &&& forall|i: int| 0 <= i < 256 ==> #[trigger] m.vocab[i] == seq![i as u8]
    &&& forall|a: u32, b: u32| #[trigger] merge_sound(m.vocab, m.targets, a, b)
}

/// `id` is the merged id of some recorded pair.
pub open spec fn is_merge_target(targets: Seq<Entry>, id: int) -> bool {
    0 <= id <= u32::MAX && exists|a: u32, b: u32| #[trigger] lookup(targets, a, b) == Some(id as u32)
}

/// The ids from `base` up that some recorded merge produced.
pub open spec fn merge_created_ids(targets: Seq<Entry>, base: int) -> Set<int> {
    Set::new(|id: int| id >= base && is_merge_target(targets, id))
}

/// When every id from `base` to the end of `vocab` was produced by a merge
/// and every merge produced an id of `vocab`, the vocabulary holds `base` ids
/// and one id per merge-created token.
pub proof fn lemma_vocab_count(vocab: Seq<Seq<u8>>, targets: Seq<Entry>, base: int)
    requires
        0 <= base <= vocab.len(),
        forall|a: u32, b: u32| #[trigger] merge_sound(vocab, targets, a, b),
        forall|id: int| base <= id < vocab.len() ==> #[trigger] is_merge_target(targets, id),
    ensures
        vocab.len() == base + merge_created_ids(targets, base).len(),
{
    let s = merge_created_ids(targets, base);
    assert forall|id: int| #[trigger] s.contains(id) implies base <= id < vocab.len() by {
        let (a, b) = choose|a: u32, b: u32| #[trigger] lookup(targets, a, b) == Some(id as u32);
        assert(merge_sound(vocab, targets, a, b));
    }
    assert(s =~= vstd::set_lib::set_int_range(base, vocab.len() as int));
    vstd::set_lib::lemma_int_range(base, vocab.len() as int);
}

/// If `(a, b)` has a merged id, all three ids are known and the merged id's
/// bytes are `a`'s followed by `b`'s.
pub open spec fn merge_sound(vocab: Seq<Seq<u8>>, targets: Seq<Entry>, a: u32, b: u32) -> bool {
    match lookup(targets, a, b) {
        Some(t) => {
            &&& (a as int) < vocab.len()
            &&& (b as int) < vocab.len()
            &&& (t as int) < vocab.len()
            &&& vocab[t as int] == vocab[a as int] + vocab[b as int]
        },
        None => true,
    }
}

} // verus!
