use vstd::prelude::*;
use crate::tables::{is_ordered, unique_pairs, lookup};
use crate::words::{is_word_byte, merged, scan_words, words_of, close_word};
use crate::model::{
    TokenizerModel, decoded, ids_known, concat_words, encode_word, encode_words, lowest_pair,
    lemma_lowest_upto_occurs, merges_consistent, merge_sound, lemma_decoded_concat,
    lemma_ids_known_concat, lemma_merged_decoded,
};
use crate::codec::{model_bytes, parse_model, vocab_fits, as_stored, lemma_model_round_trip};
use crate::tokenizer::encoded;

verus! {

/// The ids of the single bytes of `data`.
pub open spec fn byte_ids(data: Seq<u8>) -> Seq<u32> {
    data.map_values(|c: u8| c as u32)
}

proof fn lemma_encode_word_decoded(m: TokenizerModel, w: Seq<u32>)
    requires
        merges_consistent(m),
        ids_known(m.vocab, w),
    ensures
        ids_known(m.vocab, encode_word(w, m.ranks, m.targets)),
        decoded(m.vocab, encode_word(w, m.ranks, m.targets)) == decoded(m.vocab, w),
    decreases w.len(),
{
    match lowest_pair(w, m.ranks, m.targets) {
        None => {},
        Some(p) => {
            let t = lookup(m.targets, p.0, p.1).unwrap();
            lemma_lowest_upto_occurs(w, w.len() - 1, m.ranks, m.targets);
            assert(merge_sound(m.vocab, m.targets, p.0, p.1));
            crate::words::lemma_merged_len(w, p.0, p.1, t);
            lemma_merged_decoded(m.vocab, w, p.0, p.1, t);
            lemma_encode_word_decoded(m, merged(w, p.0, p.1, t));
        },
    }
}

proof fn lemma_encode_words_decoded(m: TokenizerModel, ws: Seq<Seq<u32>>)
    requires
        merges_consistent(m),
        ids_known(m.vocab, concat_words(ws)),
    ensures
        ids_known(m.vocab, concat_words(encode_words(ws, m.ranks, m.targets))),
        decoded(m.vocab, concat_words(encode_words(ws, m.ranks, m.targets))) == decoded(m.vocab, concat_words(ws)),
    decreases ws.len(),
{
    if ws.len() > 0 {
        let d = ws.drop_last();
        let e = encode_words(ws, m.ranks, m.targets);
        assert(e.drop_last() =~= encode_words(d, m.ranks, m.targets));
        lemma_ids_known_concat(m.vocab, concat_words(d), ws.last());
        lemma_encode_words_decoded(m, d);
        lemma_encode_word_decoded(m, ws.last());
        lemma_ids_known_concat(m.vocab, concat_words(e.drop_last()), e.last());
        lemma_decoded_concat(m.vocab, concat_words(e.drop_last()), e.last());
        lemma_decoded_concat(m.vocab, concat_words(d), ws.last());
    } else {
        assert(encode_words(ws, m.ranks, m.targets) =~= seq![]);
    }
}

proof fn lemma_concat_push(ws: Seq<Seq<u32>>, w: Seq<u32>)
    ensures
        concat_words(ws.push(w)) == concat_words(ws) + w,
{
    assert(ws.push(w).drop_last() =~= ws);
}

proof fn lemma_scan_concat(data: Seq<u8>)
    ensures
        concat_words(scan_words(data, None).0) + scan_words(data, None).1 == byte_ids(data),
    decreases data.len(),
{
    if data.len() == 0 {
        assert(byte_ids(data) =~= seq![]);
        assert(concat_words(seq![]) + seq![] =~= seq![]);
    } else {
        let d = data.drop_last();
        lemma_scan_concat(d);
        let (ws, cur) = scan_words(d, None);
        let c = data.last();
        assert(byte_ids(data) =~= byte_ids(d).push(c as u32));
        if is_word_byte(c) {
            assert(concat_words(ws) + cur.push(c as u32) =~= (concat_words(ws) + cur).push(c as u32));
        } else {
            let ws1 = if cur.len() > 0 { ws.push(close_word(cur, None)) } else { ws };
            lemma_concat_push(ws, cur);
            if cur.len() == 0 {
                assert(concat_words(ws) + cur =~= concat_words(ws));
            }
            assert(concat_words(ws1) == concat_words(ws) + cur);
            lemma_concat_push(ws1, close_word(seq![c as u32], None));
            assert(concat_words(ws1) + seq![c as u32] + seq![] =~= (concat_words(ws) + cur).push(c as u32));
        }
    }
}

proof fn lemma_words_concat(data: Seq<u8>)
    ensures
        concat_words(words_of(data, None, None)) == byte_ids(data),
{
    lemma_scan_concat(data);
    let (ws, cur) = scan_words(data, None);
    lemma_concat_push(ws, cur);
    if cur.len() == 0 {
        assert(concat_words(ws) + cur =~= concat_words(ws));
    }
}

proof fn lemma_byte_ids_decoded(v: Seq<Seq<u8>>, data: Seq<u8>)
    requires
        v.len() >= 256,
        forall|i: int| 0 <= i < 256 ==> #[trigger] v[i] == seq![i as u8],
    ensures
        ids_known(v, byte_ids(data)),
        decoded(v, byte_ids(data)) == data,
    decreases data.len(),
{
    if data.len() > 0 {
        let d = data.drop_last();
        lemma_byte_ids_decoded(v, d);
        let ids = byte_ids(data);
        assert(ids.drop_last() =~= byte_ids(d));
        let c = data.last();
        assert(ids.last() == c as u32);
        assert(v[c as int] == seq![c]);
        assert(d + seq![c] =~= data);
        assert forall|i: int| 0 <= i < ids.len() implies (#[trigger] ids[i] as int) < v.len() by {
            assert(ids[i] == data[i] as u32);
        }
    } else {
        assert(byte_ids(data) =~= seq![]);
        assert(data =~= seq![]);
    }
}

/// Decoding what encoding gives returns the input byte for byte, for a
/// tokenizer whose merges are consistent (as `build` leaves it) and that
/// registers no end-of-word or end-of-sequence marker.
pub proof fn lemma_decode_encode(m: TokenizerModel, data: Seq<u8>)
    requires
        merges_consistent(m),
        m.eow is None,
        m.eos is None,
    ensures
        ids_known(m.vocab, encoded(m, data)),
        decoded(m.vocab, encoded(m, data)) == data,
{
    lemma_words_concat(data);
    lemma_byte_ids_decoded(m.vocab, data);
    lemma_encode_words_decoded(m, words_of(data, None, None));
}

/// Saving and then loading gives back the same tokenizer, up to a
/// vocabulary target cut to 32 bits, so the loaded one encodes and decodes
/// every input exactly as the saved one; this holds when the counts and
/// lengths fit the 32-bit format and each table is ordered with one entry per
/// pair (as `build` leaves them).
pub proof fn lemma_save_load(m: TokenizerModel)
    requires
        m.built,
        m.config_specials.len() <= u32::MAX,
        vocab_fits(m.vocab),
        m.ranks.len() <= u32::MAX,
        m.targets.len() <= u32::MAX,
        is_ordered(m.ranks),
        unique_pairs(m.ranks),
        is_ordered(m.targets),
        unique_pairs(m.targets),
    ensures
        parse_model(model_bytes(m)) == Ok::<TokenizerModel, Seq<char>>(as_stored(m)),
        parse_model(model_bytes(m)) matches Ok(loaded) && (forall|data: Seq<u8>| #[trigger] encoded(loaded, data) == encoded(m, data))
            && (forall|ids: Seq<u32>| #[trigger] decoded(loaded.vocab, ids) == decoded(m.vocab, ids)
                && ids_known(loaded.vocab, ids) == ids_known(m.vocab, ids)),
{
    lemma_model_round_trip(m);
}

} // verus!
