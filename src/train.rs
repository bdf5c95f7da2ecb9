use vstd::prelude::*;
use std::collections::HashMap;
use crate::words::{has_pair, total_len, words_view, merge_pair};
use crate::model::{
    word_pair_count, pair_count, beats, is_best_pair, best_pair, lemma_best_pair_unique,
    lemma_count_occurs, merge_all, id_of,
};
use crate::tokenizer::vocab_view;

verus! {

broadcast use vstd::std_specs::hash::group_hash_axioms;

/// One number for each pair of ids, to key a hash map by.
pub open spec fn pair_key(a: u32, b: u32) -> u64 {
    (a as int * 0x1_0000_0000 + b as int) as u64
}

/// The count that `m` holds for `(a, b)`; zero when it holds none.
pub open spec fn count_in(m: Map<u64, u64>, a: u32, b: u32) -> nat {
    if m.contains_key(pair_key(a, b)) {
        m[pair_key(a, b)] as nat
    } else {
        0
    }
}

proof fn lemma_pair_key_injective(a: u32, b: u32, c: u32, d: u32)
    requires
        pair_key(a, b) == pair_key(c, d),
    ensures
        a == c && b == d,
{
    assert(pair_key(a, b) == a as int * 0x1_0000_0000 + b as int);
    assert(pair_key(c, d) == c as int * 0x1_0000_0000 + d as int);
    if a < c {
        assert(a as int * 0x1_0000_0000 + 0x1_0000_0000 <= c as int * 0x1_0000_0000) by (nonlinear_arith)
            requires a < c;
    } else if c < a {
        assert(c as int * 0x1_0000_0000 + 0x1_0000_0000 <= a as int * 0x1_0000_0000) by (nonlinear_arith)
            requires c < a;
    }
}

proof fn lemma_word_count_le(w: Seq<u32>, a: u32, b: u32)
    ensures
        word_pair_count(w, a, b) <= w.len(),
    decreases w.len(),
{
    if w.len() >= 2 {
        lemma_word_count_le(w.drop_last(), a, b);
    }
}

proof fn lemma_count_le(ws: Seq<Seq<u32>>, a: u32, b: u32)
    ensures
        pair_count(ws, a, b) <= total_len(ws),
    decreases ws.len(),
{
    if ws.len() > 0 {
        lemma_count_le(ws.drop_last(), a, b);
        lemma_word_count_le(ws.last(), a, b);
    }
}

proof fn lemma_total_len_take(ws: Seq<Seq<u32>>, i: int)
    requires
        0 <= i < ws.len(),
    ensures
        total_len(ws.take(i)) + ws[i].len() <= total_len(ws),
    decreases ws.len(),
{
    if i == ws.len() - 1 {
        assert(ws.take(i) =~= ws.drop_last());
    } else {
        lemma_total_len_take(ws.drop_last(), i);
        assert(ws.drop_last().take(i) =~= ws.take(i));
    }
}

/// Counts every adjacent pair within each word.
pub fn count_pairs(words: &Vec<Vec<u32>>) -> (r: HashMap<u64, u64>)
    requires
        total_len(words_view(words@)) < 0x1_0000_0000_0000,
    ensures
        forall|a: u32, b: u32| #[trigger] count_in(r@, a, b) == pair_count(words_view(words@), a, b),
{
    let ghost ws = words_view(words@);
    let mut counts: HashMap<u64, u64> = HashMap::new();
    let mut i: usize = 0;
    while i < words.len()
        invariant
            i <= ws.len(),
            ws == words_view(words@),
            total_len(ws) < 0x1_0000_0000_0000,
            forall|a: u32, b: u32| #[trigger] count_in(counts@, a, b) == pair_count(ws.take(i as int), a, b),
        decreases ws.len() - i,
    {
        let w = &words[i];
        let ghost before = ws.take(i as int);
        proof {
            lemma_total_len_take(ws, i as int);
            assert(w@ == ws[i as int]);
        }
        if w.len() >= 2 {
            let mut j: usize = 1;
            proof {
                assert forall|a: u32, b: u32| #[trigger] count_in(counts@, a, b) == pair_count(before, a, b)
                    + word_pair_count(w@.take(j as int), a, b) by {}
            }
            while j < w.len()
                invariant
                    1 <= j <= w@.len(),
                    w@ == ws[i as int],
                    total_len(before) + w@.len() <= total_len(ws),
                    total_len(ws) < 0x1_0000_0000_0000,
                    forall|a: u32, b: u32| #[trigger] count_in(counts@, a, b) == pair_count(before, a, b)
                        + word_pair_count(w@.take(j as int), a, b),
                decreases w@.len() - j,
            {
                let a0 = w[j - 1];
                let b0 = w[j];
                let key = a0 as u64 * 0x1_0000_0000 + b0 as u64;
                assert(key == pair_key(a0, b0));
                let ghost old_counts = counts@;
                proof {
                    lemma_count_le(before, a0, b0);
                    lemma_word_count_le(w@.take(j as int), a0, b0);
                }
                let c: u64 = match counts.get(&key) {
                    Some(c) => *c,
                    None => 0,
                };
                assert(c == count_in(old_counts, a0, b0));
                counts.insert(key, c + 1);
                proof {
                    let t1 = w@.take(j as int + 1);
                    assert(t1.drop_last() =~= w@.take(j as int));
                    assert forall|a: u32, b: u32| #[trigger] count_in(counts@, a, b) == pair_count(before, a, b)
                        + word_pair_count(w@.take(j as int + 1), a, b) by {
                        if pair_key(a, b) == key {
                            lemma_pair_key_injective(a, b, a0, b0);
                        }
                        assert(count_in(old_counts, a, b) == pair_count(before, a, b)
                            + word_pair_count(w@.take(j as int), a, b));
                    }
                }
                j = j + 1;
            }
            assert(w@.take(j as int) =~= w@);
        }
        proof {
            assert(ws.take(i as int + 1).drop_last() =~= before);
            assert(ws.take(i as int + 1).last() == w@);
            if w@.len() < 2 {
                assert forall|a: u32, b: u32| #[trigger] count_in(counts@, a, b) == pair_count(ws.take(i as int + 1), a, b) by {
                    assert(word_pair_count(w@, a, b) == 0);
                }
            } else {
                assert forall|a: u32, b: u32| #[trigger] count_in(counts@, a, b) == pair_count(ws.take(i as int + 1), a, b) by {
                    assert(w@.take(w@.len() as int) =~= w@);
                }
            }
        }
        i = i + 1;
    }
    assert(ws.take(ws.len() as int) =~= ws);
    counts
}

/// `p` beats every adjacent pair of the first `i` words and of the first
/// `j` ids of word `i`.
pub open spec fn beats_seen(ws: Seq<Seq<u32>>, p: (u32, u32), i: int, j: int) -> bool {
    &&& forall|i2: int, k: int| 0 <= i2 < i && 0 <= k && k + 1 < ws[i2].len()
        ==> #[trigger] beats(ws, p, (ws[i2][k], ws[i2][k + 1]))
    &&& forall|k: int| 0 <= k && k + 1 < j ==> #[trigger] beats(ws, p, (ws[i][k], ws[i][k + 1]))
}

/// No adjacent pair among the first `i` words and the first `j` ids of word `i`.
pub open spec fn none_seen(ws: Seq<Seq<u32>>, i: int, j: int) -> bool {
    &&& forall|i2: int| 0 <= i2 < i ==> (#[trigger] ws[i2]).len() < 2
    &&& j < 2
}

/// The pair that training merges next (see `best_pair`), from the counts.
pub fn select_best(words: &Vec<Vec<u32>>, counts: &HashMap<u64, u64>) -> (r: Option<(u32, u32)>)
    requires
        forall|a: u32, b: u32| #[trigger] count_in(counts@, a, b) == pair_count(words_view(words@), a, b),
    ensures
        r == best_pair(words_view(words@)),
{
    let ghost ws = words_view(words@);
    let mut best: Option<(u32, u32)> = None;
    let mut best_count: u64 = 0;
    let mut i: usize = 0;
    while i < words.len()
        invariant
            i <= ws.len(),
            ws == words_view(words@),
            forall|a: u32, b: u32| #[trigger] count_in(counts@, a, b) == pair_count(ws, a, b),
            best matches Some(p) ==> best_count == pair_count(ws, p.0, p.1) && best_count > 0
                && beats_seen(ws, p, i as int, 0),
            best is None ==> none_seen(ws, i as int, 0),
        decreases ws.len() - i,
    {
        let w = &words[i];
        assert(w@ == ws[i as int]);
        let mut j: usize = 1;
        while j < w.len()
            invariant
                1 <= j,
                i < ws.len(),
                w@ == ws[i as int],
                ws == words_view(words@),
                forall|a: u32, b: u32| #[trigger] count_in(counts@, a, b) == pair_count(ws, a, b),
                best matches Some(p) ==> best_count == pair_count(ws, p.0, p.1) && best_count > 0
                    && beats_seen(ws, p, i as int, j as int),
                best is None ==> none_seen(ws, i as int, j as int),
            decreases w@.len() - j,
        {
            let a = w[j - 1];
            let b = w[j];
            let key = a as u64 * 0x1_0000_0000 + b as u64;
            assert(key == pair_key(a, b));
            let c: u64 = match counts.get(&key) {
                Some(c) => *c,
                None => 0,
            };
            assert(c == count_in(counts@, a, b));
            assert(c == pair_count(ws, a, b));
            proof {
                assert(ws[i as int][(j - 1) as int] == a && ws[i as int][(j - 1) + 1] == b);
                if c == 0 {
                    assert(word_pair_count(w@.take(j as int + 1), a, b) > 0) by {
                        assert(w@.take(j as int + 1).drop_last() =~= w@.take(j as int));
                    }
                    lemma_window_counted(ws, i as int, j as int);
                }
            }
            let take = match best {
                None => true,
                Some(p) => c > best_count || (c == best_count && (a < p.0 || (a == p.0 && b < p.1))),
            };
            if take {
                proof {
                    let q = (a, b);
                    if let Some(p) = best {
                        assert forall|i2: int, k: int| 0 <= i2 < i && 0 <= k && k + 1 < ws[i2].len()
                            implies #[trigger] beats(ws, q, (ws[i2][k], ws[i2][k + 1])) by {
                            assert(beats(ws, p, (ws[i2][k], ws[i2][k + 1])));
                        }
                        assert forall|k: int| 0 <= k && k + 1 < j + 1
                            implies #[trigger] beats(ws, q, (ws[i as int][k], ws[i as int][k + 1])) by {
                            if k + 1 < j {
                                assert(beats(ws, p, (ws[i as int][k], ws[i as int][k + 1])));
                            }
                        }
                    } else {
                        assert forall|k: int| 0 <= k && k + 1 < j + 1
                            implies #[trigger] beats(ws, q, (ws[i as int][k], ws[i as int][k + 1])) by {
                            assert(k == j - 1);
                        }
                    }
                }
                best = Some((a, b));
                best_count = c;
            } else {
                proof {
                    let p = best.unwrap();
                    assert forall|k: int| 0 <= k && k + 1 < j + 1
                        implies #[trigger] beats(ws, p, (ws[i as int][k], ws[i as int][k + 1])) by {
                        if k + 1 == j {
                            assert((ws[i as int][k], ws[i as int][k + 1]) == (a, b));
                        }
                    }
                }
            }
            j = j + 1;
        }
        proof {
            if let Some(p) = best {
                assert forall|i2: int, k: int| 0 <= i2 < i + 1 && 0 <= k && k + 1 < ws[i2].len()
                    implies #[trigger] beats(ws, p, (ws[i2][k], ws[i2][k + 1])) by {
                    if i2 == i {
                        assert(k + 1 < j);
                    }
                }
            } else {
                assert forall|i2: int| 0 <= i2 < i + 1 implies (#[trigger] ws[i2]).len() < 2 by {
                    if i2 == i {
                        assert(j >= w@.len());
                    }
                }
            }
        }
        i = i + 1;
    }
    proof {
        match best {
            Some(p) => {
                assert forall|q: (u32, u32)| #[trigger] beats(ws, p, q) by {
                    if pair_count(ws, q.0, q.1) > 0 {
                        lemma_count_occurs(ws, q.0, q.1);
                        let i2 = choose|i2: int| 0 <= i2 < ws.len() && has_pair(#[trigger] ws[i2], q.0, q.1);
                        let k = choose|k: int| 0 <= k && k + 1 < ws[i2].len() && ws[i2][k] == q.0 && #[trigger] ws[i2][k + 1] == q.1;
                        assert(beats(ws, p, (ws[i2][k], ws[i2][k + 1])));
                    }
                }
                lemma_best_pair_unique(ws, p);
            },
            None => {
                assert forall|q: (u32, u32)| !is_best_pair(ws, q) by {
                    if pair_count(ws, q.0, q.1) > 0 {
                        lemma_count_occurs(ws, q.0, q.1);
                        let i2 = choose|i2: int| 0 <= i2 < ws.len() && has_pair(#[trigger] ws[i2], q.0, q.1);
                        assert(ws[i2].len() < 2);
                    }
                }
            },
        }
    }
    best
}

proof fn lemma_word_count_prefix(w: Seq<u32>, n: int, a: u32, b: u32)
    requires
        0 <= n <= w.len(),
    ensures
        word_pair_count(w.take(n), a, b) <= word_pair_count(w, a, b),
    decreases w.len() - n,
{
    if n < w.len() {
        lemma_word_count_prefix(w, n + 1, a, b);
        assert(w.take(n + 1).drop_last() =~= w.take(n));
    } else {
        assert(w.take(n) =~= w);
    }
}

proof fn lemma_word_le_count(ws: Seq<Seq<u32>>, i: int, a: u32, b: u32)
    requires
        0 <= i < ws.len(),
    ensures
        word_pair_count(ws[i], a, b) <= pair_count(ws, a, b),
    decreases ws.len(),
{
    if i < ws.len() - 1 {
        lemma_word_le_count(ws.drop_last(), i, a, b);
    }
}

/// The window ending at `j` in word `i` is counted.
proof fn lemma_window_counted(ws: Seq<Seq<u32>>, i: int, j: int)
    requires
        0 <= i < ws.len(),
        1 <= j < ws[i].len(),
    ensures
        pair_count(ws, ws[i][j - 1], ws[i][j]) > 0,
{
    let w = ws[i];
    let t = w.take(j + 1);
    assert(t.drop_last() =~= w.take(j));
    assert(word_pair_count(t, w[j - 1], w[j]) > 0);
    lemma_word_count_prefix(w, j + 1, w[j - 1], w[j]);
    lemma_word_le_count(ws, i, w[j - 1], w[j]);
}

/// `x` followed by `y`.
pub fn join_bytes(x: &Vec<u8>, y: &Vec<u8>) -> (r: Vec<u8>)
    ensures
        r@ == x@ + y@,
{
    let mut r = x.clone();
    assert(r@ =~= x@);
    let mut j: usize = 0;
    while j < y.len()
        invariant
            j <= y@.len(),
            r@ == x@ + y@.subrange(0, j as int),
        decreases y@.len() - j,
    {
        r.push(y[j]);
        assert(x@ + y@.subrange(0, j as int + 1) =~= (x@ + y@.subrange(0, j as int)).push(y[j as int]));
        j = j + 1;
    }
    assert(y@.subrange(0, y@.len() as int) =~= y@);
    r
}

pub fn bytes_equal(x: &Vec<u8>, y: &Vec<u8>) -> (r: bool)
    ensures
        r == (x@ == y@),
{
    if x.len() != y.len() {
        return false;
    }
    let mut j: usize = 0;
    while j < x.len()
        invariant
            j <= x@.len(),
            x@.len() == y@.len(),
            x@.subrange(0, j as int) == y@.subrange(0, j as int),
        decreases x@.len() - j,
    {
        if x[j] != y[j] {
            return false;
        }
        assert(x@.subrange(0, j as int + 1) =~= x@.subrange(0, j as int).push(x[j as int]));
        assert(y@.subrange(0, j as int + 1) =~= y@.subrange(0, j as int).push(y[j as int]));
        j = j + 1;
    }
    assert(x@.subrange(0, j as int) =~= x@);
    assert(y@.subrange(0, j as int) =~= y@);
    true
}

/// The id under which `b` is interned (see `id_of`), searched from the
/// newest id.
pub fn find_id(vocab: &Vec<Vec<u8>>, b: &Vec<u8>) -> (r: Option<usize>)
    ensures
        r matches Some(i) ==> id_of(vocab_view(vocab@), b@) == Some(i as nat),
        r is None ==> id_of(vocab_view(vocab@), b@) is None,
{
    let ghost v = vocab_view(vocab@);
    let mut i: usize = vocab.len();
    assert(v.subrange(0, i as int) =~= v);
    while i > 0
        invariant
            i <= v.len(),
            v == vocab_view(vocab@),
            id_of(v, b@) == id_of(v.subrange(0, i as int), b@),
        decreases i,
    {
        assert(v.subrange(0, i as int).drop_last() =~= v.subrange(0, i - 1));
        if bytes_equal(&vocab[i - 1], b) {
            return Some(i - 1);
        }
        i = i - 1;
    }
    None
}

/// Every word with each `(a, b)` replaced by `m` (see `merge_all`).
pub fn merge_words(words: &Vec<Vec<u32>>, a: u32, b: u32, m: u32) -> (r: Vec<Vec<u32>>)
    ensures
        words_view(r@) == merge_all(words_view(words@), a, b, m),
{
    let ghost ws = words_view(words@);
    let mut out: Vec<Vec<u32>> = Vec::new();
    let mut i: usize = 0;
    while i < words.len()
        invariant
            i <= ws.len(),
            ws == words_view(words@),
            out@.len() == i,
            words_view(out@) == merge_all(ws.take(i as int), a, b, m),
        decreases ws.len() - i,
    {
        let w = merge_pair(&words[i], a, b, m);
        let ghost before = out@;
        out.push(w);
        assert(words@[i as int]@ == ws[i as int]);
        assert(out@.drop_last() =~= before);
        assert forall|k: int| 0 <= k < i + 1 implies #[trigger] words_view(out@)[k] == merge_all(ws.take(i as int + 1), a, b, m)[k] by {
            if k < i {
                assert(words_view(before)[k] == merge_all(ws.take(i as int), a, b, m)[k]);
                assert(out@[k] == before[k]);
            }
        }
        assert(words_view(out@) =~= merge_all(ws.take(i as int + 1), a, b, m));
        i = i + 1;
    }
    assert(ws.take(ws.len() as int) =~= ws);
    out
}

} // verus!
