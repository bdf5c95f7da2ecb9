use vstd::prelude::*;

verus! {

/// ASCII letters and digits: the bytes that words are made of.
pub open spec fn is_word_byte(c: u8) -> bool {
    (48 <= c && c <= 57) || (65 <= c && c <= 90) || (97 <= c && c <= 122)
}

/// A finished word: the end-of-word marker is appended when one is configured.
pub open spec fn close_word(w: Seq<u32>, eow: Option<u32>) -> Seq<u32> {
    match eow {
        Some(e) => w.push(e),
        None => w,
    }
}

/// The words closed so far and the word still open after scanning `data`.
pub open spec fn scan_words(data: Seq<u8>, eow: Option<u32>) -> (Seq<Seq<u32>>, Seq<u32>)
    decreases data.len(),
{
    if data.len() == 0 {
        (seq![], seq![])
    } else {
        let (ws, cur) = scan_words(data.drop_last(), eow);
        let c = data.last();
        if is_word_byte(c) {
            (ws, cur.push(c as u32))
        } else {
            let ws1 = if cur.len() > 0 { ws.push(close_word(cur, eow)) } else { ws };
            (ws1.push(close_word(seq![c as u32], eow)), seq![])
        }
    }
}

/// The words of `data`: each run of letters and digits, and each other
/// byte on its own, closed with the end-of-word marker if any; then a
/// last word holding only the end-of-sequence marker, if any.
pub open spec fn words_of(data: Seq<u8>, eow: Option<u32>, eos: Option<u32>) -> Seq<Seq<u32>> {
    let (ws, cur) = scan_words(data, eow);
    let ws1 = if cur.len() > 0 { ws.push(close_word(cur, eow)) } else { ws };
    match eos {
        Some(e) => ws1.push(seq![e]),
        None => ws1,
    }
}

/// One left-to-right pass that replaces each adjacent `(a, b)` with `m`;
/// a replacement may itself be the left half of the next match.
pub open spec fn merged(w: Seq<u32>, a: u32, b: u32, m: u32) -> Seq<u32>
    decreases w.len(),
{
    if w.len() < 2 {
        w
    } else if w[0] == a && w[1] == b {
        merged(seq![m] + w.subrange(2, w.len() as int), a, b, m)
    } else {
        seq![w[0]] + merged(w.subrange(1, w.len() as int), a, b, m)
    }
}

/// `w` holds `a` immediately followed by `b` somewhere.
pub open spec fn has_pair(w: Seq<u32>, a: u32, b: u32) -> bool {
    exists|i: int| 0 <= i && i + 1 < w.len() && w[i] == a && #[trigger] w[i + 1] == b
}

/// The number of ids in all words together.
pub open spec fn total_len(ws: Seq<Seq<u32>>) -> nat
    decreases ws.len(),
{
    if ws.len() == 0 {
        0
    } else {
        total_len(ws.drop_last()) + ws.last().len()
    }
}

/// Every id in `w` is below `n`.
pub open spec fn ids_below(w: Seq<u32>, n: nat) -> bool {
    forall|i: int| 0 <= i < w.len() ==> (#[trigger] w[i] as nat) < n
}

/// The ids of each word.
pub open spec fn words_view(ws: Seq<Vec<u32>>) -> Seq<Seq<u32>> {
    ws.map_values(|w: Vec<u32>| w@)
}

pub proof fn lemma_merged_len(w: Seq<u32>, a: u32, b: u32, m: u32)
    ensures
        merged(w, a, b, m).len() <= w.len(),
        has_pair(w, a, b) ==> merged(w, a, b, m).len() < w.len(),
    decreases w.len(),
{
    if w.len() < 2 {
        if has_pair(w, a, b) {
            let i = choose|i: int| 0 <= i && i + 1 < w.len() && w[i] == a && #[trigger] w[i + 1] == b;
        }
    } else if w[0] == a && w[1] == b {
        lemma_merged_len(seq![m] + w.subrange(2, w.len() as int), a, b, m);
    } else {
        let t = w.subrange(1, w.len() as int);
        lemma_merged_len(t, a, b, m);
        if has_pair(w, a, b) {
            let i = choose|i: int| 0 <= i && i + 1 < w.len() && w[i] == a && #[trigger] w[i + 1] == b;
            assert(i > 0);
            assert(t[i - 1] == a && t[i] == b);
        }
    }
}

pub proof fn lemma_merged_ids_below(w: Seq<u32>, a: u32, b: u32, m: u32, n: nat)
    requires
        ids_below(w, n),
        (m as nat) < n,
    ensures
        ids_below(merged(w, a, b, m), n),
    decreases w.len(),
{
    if w.len() < 2 {
    } else if w[0] == a && w[1] == b {
        lemma_merged_ids_below(seq![m] + w.subrange(2, w.len() as int), a, b, m, n);
    } else {
        lemma_merged_ids_below(w.subrange(1, w.len() as int), a, b, m, n);
    }
}

pub proof fn lemma_total_len_push(ws: Seq<Seq<u32>>, w: Seq<u32>)
    ensures
        total_len(ws.push(w)) == total_len(ws) + w.len(),
{
    assert(ws.push(w).drop_last() =~= ws);
}

proof fn lemma_scan_len(data: Seq<u8>, eow: Option<u32>)
    ensures
        ({
            let (ws, cur) = scan_words(data, eow);
            total_len(ws) + 2 * cur.len() <= 2 * data.len()
        }),
    decreases data.len(),
{
    if data.len() > 0 {
        lemma_scan_len(data.drop_last(), eow);
        let (ws, cur) = scan_words(data.drop_last(), eow);
        let c = data.last();
        if !is_word_byte(c) {
            let ws1 = if cur.len() > 0 { ws.push(close_word(cur, eow)) } else { ws };
            lemma_total_len_push(ws, close_word(cur, eow));
            lemma_total_len_push(ws1, close_word(seq![c as u32], eow));
        }
    }
}

/// The words of `data` hold at most two ids per byte, and one more.
pub proof fn lemma_words_len(data: Seq<u8>, eow: Option<u32>, eos: Option<u32>)
    ensures
        total_len(words_of(data, eow, eos)) <= 2 * data.len() + 1,
{
    lemma_scan_len(data, eow);
    let (ws, cur) = scan_words(data, eow);
    let ws1 = if cur.len() > 0 { ws.push(close_word(cur, eow)) } else { ws };
    lemma_total_len_push(ws, close_word(cur, eow));
    lemma_total_len_push(ws1, seq![0u32]);
    if let Some(e) = eos {
        lemma_total_len_push(ws1, seq![e]);
    }
}

proof fn lemma_close_ids_below(w: Seq<u32>, eow: Option<u32>, n: nat)
    requires
        ids_below(w, n),
        eow matches Some(e) ==> (e as nat) < n,
    ensures
        ids_below(close_word(w, eow), n),
{
}

proof fn lemma_scan_ids_below(data: Seq<u8>, eow: Option<u32>, n: nat)
    requires
        n >= 256,
        eow matches Some(e) ==> (e as nat) < n,
    ensures
        forall|i: int| 0 <= i < scan_words(data, eow).0.len() ==> ids_below(#[trigger] scan_words(data, eow).0[i], n),
        ids_below(scan_words(data, eow).1, n),
    decreases data.len(),
{
    if data.len() > 0 {
        lemma_scan_ids_below(data.drop_last(), eow, n);
        let (ws, cur) = scan_words(data.drop_last(), eow);
        let c = data.last();
        lemma_close_ids_below(cur, eow, n);
        lemma_close_ids_below(seq![c as u32], eow, n);
    }
}

/// The words of `data` hold byte ids and the configured markers only.
pub proof fn lemma_words_ids_below(data: Seq<u8>, eow: Option<u32>, eos: Option<u32>, n: nat)
    requires
        n >= 256,
        eow matches Some(e) ==> (e as nat) < n,
        eos matches Some(e) ==> (e as nat) < n,
    ensures
        forall|i: int| 0 <= i < words_of(data, eow, eos).len() ==> ids_below(#[trigger] words_of(data, eow, eos)[i], n),
{
    lemma_scan_ids_below(data, eow, n);
    let (ws, cur) = scan_words(data, eow);
    lemma_close_ids_below(cur, eow, n);
}

pub fn is_word_byte_exec(c: u8) -> (r: bool)
    ensures
        r == is_word_byte(c),
{
    (48 <= c && c <= 57) || (65 <= c && c <= 90) || (97 <= c && c <= 122)
}

fn close_word_exec(w: &mut Vec<u32>, eow: Option<u32>)
    ensures
        final(w)@ == close_word(old(w)@, eow),
{
    if let Some(e) = eow {
        w.push(e);
    }
}

/// Splits `data` into words of ids (see `words_of`).
pub fn pretokenize(data: &[u8], eow: Option<u32>, eos: Option<u32>) -> (r: Vec<Vec<u32>>)
    ensures
        words_view(r@) == words_of(data@, eow, eos),
{
    let mut words: Vec<Vec<u32>> = Vec::new();
    let mut cur: Vec<u32> = Vec::new();
    let mut i: usize = 0;
    while i < data.len()
        invariant
            i <= data@.len(),
            (words_view(words@), cur@) == scan_words(data@.subrange(0, i as int), eow),
        decreases data@.len() - i,
    {
        let c = data[i];
        proof {
            let pre = data@.subrange(0, i as int + 1);
            assert(pre.drop_last() =~= data@.subrange(0, i as int));
            assert(pre.last() == c);
        }
        if is_word_byte_exec(c) {
            cur.push(c as u32);
        } else {
            if cur.len() > 0 {
                close_word_exec(&mut cur, eow);
                words.push(cur);
                cur = Vec::new();
            }
            let mut single: Vec<u32> = Vec::new();
            single.push(c as u32);
            assert(single@ =~= seq![c as u32]);
            close_word_exec(&mut single, eow);
            words.push(single);
        }
        assert(words_view(words@) =~= scan_words(data@.subrange(0, i as int + 1), eow).0);
        i = i + 1;
    }
    assert(data@.subrange(0, data@.len() as int) =~= data@);
    if cur.len() > 0 {
        close_word_exec(&mut cur, eow);
        words.push(cur);
    }
    if let Some(e) = eos {
        let mut last: Vec<u32> = Vec::new();
        last.push(e);
        assert(last@ =~= seq![e]);
        words.push(last);
    }
    assert(words_view(words@) =~= words_of(data@, eow, eos));
    words
}

/// Replaces each adjacent `(a, b)` in `w` with `m`, left to right (see `merged`).
pub fn merge_pair(w: &Vec<u32>, a: u32, b: u32, m: u32) -> (r: Vec<u32>)
    ensures
        r@ == merged(w@, a, b, m),
{
    if w.len() < 2 {
        return w.clone();
    }
    let mut out: Vec<u32> = Vec::new();
    out.push(w[0]);
    let mut i: usize = 1;
    proof {
        assert(seq![w@[0]] + w@.subrange(1, w@.len() as int) =~= w@);
        assert(out@.drop_last() =~= seq![]);
        assert(seq![] + merged(w@, a, b, m) =~= merged(w@, a, b, m));
    }
    while i < w.len()
        invariant
            1 <= i <= w@.len(),
            out@.len() >= 1,
            out@.drop_last() + merged(seq![out@.last()] + w@.subrange(i as int, w@.len() as int), a, b, m)
                == merged(w@, a, b, m),
        decreases w@.len() - i,
    {
        let x = w[i];
        let last = out[out.len() - 1];
        let ghost rest = w@.subrange(i as int + 1, w@.len() as int);
        let ghost s = seq![last] + w@.subrange(i as int, w@.len() as int);
        proof {
            assert(s[0] == last && s[1] == x);
            assert(s.subrange(2, s.len() as int) =~= rest);
            assert(s.subrange(1, s.len() as int) =~= seq![x] + rest);
        }
        if last == a && x == b {
            let ghost before = out@;
            let n = out.len() - 1;
            out.set(n, m);
            proof {
                assert(out@.drop_last() =~= before.drop_last());
            }
        } else {
            let ghost before = out@;
            out.push(x);
            proof {
                assert(out@.drop_last() =~= before);
                assert(before =~= before.drop_last() + seq![last]);
                assert(before.drop_last() + (seq![last] + merged(seq![x] + rest, a, b, m))
                    =~= before + merged(seq![x] + rest, a, b, m));
            }
        }
        i = i + 1;
    }
    proof {
        let s = seq![out@.last()] + w@.subrange(i as int, w@.len() as int);
        assert(s =~= seq![out@.last()]);
        assert(out@.drop_last() + seq![out@.last()] =~= out@);
    }
    out
}

} // verus!
