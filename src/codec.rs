use vstd::prelude::*;
use crate::special::{SpecialToken, special_tag, special_of_tag, invalid_special_msg};
use crate::tables::{
    Entry, upsert_all, upsert_exec, is_ordered, unique_pairs, lemma_upsert_all_ordered,
};
use crate::wire::{u32_le, le_u32, end_of_data_msg, write_u32, read_u32, lemma_u32_round_trip};
use crate::tokenizer::vocab_view;
use crate::model::TokenizerModel;

verus! {

// ---------------------------------------------------------------------
// Writing

/// One tag byte per special token.
pub open spec fn tags_bytes(sp: Seq<SpecialToken>) -> Seq<u8>
    decreases sp.len(),
{
    if sp.len() == 0 {
        seq![]
    } else {
        tags_bytes(sp.drop_last()).push(special_tag(sp.last()))
    }
}

/// Each entry as its 32-bit length followed by its bytes.
pub open spec fn vocab_bytes(v: Seq<Seq<u8>>) -> Seq<u8>
    decreases v.len(),
{
    if v.len() == 0 {
        seq![]
    } else {
        vocab_bytes(v.drop_last()) + u32_le(v.last().len() as u32) + v.last()
    }
}

/// The registered special tokens in tag order, each with its id.
pub open spec fn registry_items(eos: Option<u32>, unk: Option<u32>, eow: Option<u32>) -> Seq<(SpecialToken, u32)> {
    (match eos { Some(i) => seq![(SpecialToken::Eos, i)], None => seq![] })
        + (match unk { Some(i) => seq![(SpecialToken::Unk, i)], None => seq![] })
        + (match eow { Some(i) => seq![(SpecialToken::Eow, i)], None => seq![] })
}

/// Each registry item as its tag byte followed by its 32-bit id.
pub open spec fn items_bytes(items: Seq<(SpecialToken, u32)>) -> Seq<u8>
    decreases items.len(),
{
    if items.len() == 0 {
        seq![]
    } else {
        items_bytes(items.drop_last()) + seq![special_tag(items.last().0)] + u32_le(items.last().1)
    }
}

/// The registered special tokens: their count, then each tag and id in tag
/// order.
pub open spec fn registry_bytes(eos: Option<u32>, unk: Option<u32>, eow: Option<u32>) -> Seq<u8> {
    let items = registry_items(eos, unk, eow);
    u32_le(items.len() as u32) + items_bytes(items)
}

/// Each entry as three 32-bit numbers: `a`, `b`, and its value.
pub open spec fn entries_bytes(es: Seq<Entry>) -> Seq<u8>
    decreases es.len(),
{
    if es.len() == 0 {
        seq![]
    } else {
        entries_bytes(es.drop_last()) + u32_le(es.last().0) + u32_le(es.last().1) + u32_le(es.last().2)
    }
}

// ---------------------------------------------------------------------
// Reading: each reader takes the input and a position, and gives the value
// read with the position after it, or the message of the failure.

pub type Parsed<T> = Result<(T, int), Seq<char>>;

pub open spec fn parse_u32(b: Seq<u8>, pos: int) -> Parsed<u32> {
    if pos + 4 <= b.len() {
        Ok((le_u32(b.subrange(pos, b.len() as int)), pos + 4))
    } else {
        Err(end_of_data_msg())
    }
}

pub open spec fn parse_tag(b: Seq<u8>, pos: int) -> Parsed<SpecialToken> {
    if pos + 1 <= b.len() {
        match special_of_tag(b[pos]) {
            Some(t) => Ok((t, pos + 1)),
            None => Err(invalid_special_msg()),
        }
    } else {
        Err(end_of_data_msg())
    }
}

pub open spec fn parse_tags(b: Seq<u8>, pos: int, n: nat) -> Parsed<Seq<SpecialToken>>
    decreases n,
{
    if n == 0 {
        Ok((seq![], pos))
    } else {
        match parse_tags(b, pos, (n - 1) as nat) {
            Ok((ts, p)) => match parse_tag(b, p) {
                Ok((t, at2)) => Ok((ts.push(t), at2)),
                Err(e) => Err(e),
            },
            Err(e) => Err(e),
        }
    }
}

pub open spec fn parse_piece(b: Seq<u8>, pos: int) -> Parsed<Seq<u8>> {
    match parse_u32(b, pos) {
        Ok((n, p)) => if p + n <= b.len() {
            Ok((b.subrange(p, p + n), p + n))
        } else {
            Err(end_of_data_msg())
        },
        Err(e) => Err(e),
    }
}

pub open spec fn parse_vocab(b: Seq<u8>, pos: int, n: nat) -> Parsed<Seq<Seq<u8>>>
    decreases n,
{
    if n == 0 {
        Ok((seq![], pos))
    } else {
        match parse_vocab(b, pos, (n - 1) as nat) {
            Ok((vs, p)) => match parse_piece(b, p) {
                Ok((v, at2)) => Ok((vs.push(v), at2)),
                Err(e) => Err(e),
            },
            Err(e) => Err(e),
        }
    }
}

/// The registry after one more `(tag, id)` item; a later item for a kind
/// replaces an earlier one.
pub open spec fn register(reg: (Option<u32>, Option<u32>, Option<u32>), t: SpecialToken, id: u32) -> (Option<u32>, Option<u32>, Option<u32>) {
    match t {
        SpecialToken::Eos => (Some(id), reg.1, reg.2),
        SpecialToken::Unk => (reg.0, Some(id), reg.2),
        SpecialToken::Eow => (reg.0, reg.1, Some(id)),
    }
}

pub open spec fn parse_registry(b: Seq<u8>, pos: int, n: nat) -> Parsed<(Option<u32>, Option<u32>, Option<u32>)>
    decreases n,
{
    if n == 0 {
        Ok(((None, None, None), pos))
    } else {
        match parse_registry(b, pos, (n - 1) as nat) {
            Ok((reg, p)) => match parse_tag(b, p) {
                Ok((t, at2)) => match parse_u32(b, at2) {
                    Ok((id, at3)) => Ok((register(reg, t, id), at3)),
                    Err(e) => Err(e),
                },
                Err(e) => Err(e),
            },
            Err(e) => Err(e),
        }
    }
}

pub open spec fn parse_entry(b: Seq<u8>, pos: int) -> Parsed<Entry> {
    match parse_u32(b, pos) {
        Ok((x, at1)) => match parse_u32(b, at1) {
            Ok((y, at2)) => match parse_u32(b, at2) {
                Ok((v, at3)) => Ok(((x, y, v), at3)),
                Err(e) => Err(e),
            },
            Err(e) => Err(e),
        },
        Err(e) => Err(e),
    }
}

pub open spec fn parse_entries(b: Seq<u8>, pos: int, n: nat) -> Parsed<Seq<Entry>>
    decreases n,
{
    if n == 0 {
        Ok((seq![], pos))
    } else {
        match parse_entries(b, pos, (n - 1) as nat) {
            Ok((es, p)) => match parse_entry(b, p) {
                Ok((e, at2)) => Ok((es.push(e), at2)),
                Err(e) => Err(e),
            },
            Err(e) => Err(e),
        }
    }
}

/// A table as loading builds it: the entries recorded one by one.
pub open spec fn parse_table(b: Seq<u8>, pos: int) -> Parsed<Seq<Entry>> {
    match parse_u32(b, pos) {
        Ok((n, p)) => match parse_entries(b, p, n as nat) {
            Ok((es, at2)) => Ok((upsert_all(es), at2)),
            Err(e) => Err(e),
        },
        Err(e) => Err(e),
    }
}

/// The binary form of a tokenizer: the special-token count, the vocabulary
/// target and the special-token tags; the vocabulary; the registered special
/// tokens; the merge ranks; the merged ids. Counts and lengths are 32-bit.
pub open spec fn model_bytes(m: TokenizerModel) -> Seq<u8> {
    u32_le(m.config_specials.len() as u32) + u32_le(m.vocab_size as u32) + tags_bytes(m.config_specials)
        + u32_le(m.vocab.len() as u32) + vocab_bytes(m.vocab)
        + registry_bytes(m.eos, m.unk, m.eow)
        + u32_le(m.ranks.len() as u32) + entries_bytes(m.ranks)
        + u32_le(m.targets.len() as u32) + entries_bytes(m.targets)
}

/// The built tokenizer that `b` describes, or the message of the first
/// failure. Bytes after the last table are ignored.
pub open spec fn parse_model(b: Seq<u8>) -> Result<TokenizerModel, Seq<char>> {
    match parse_u32(b, 0) {
        Err(e) => Err(e),
        Ok((ns, at1)) => match parse_u32(b, at1) {
            Err(e) => Err(e),
            Ok((vs, at2)) => match parse_tags(b, at2, ns as nat) {
                Err(e) => Err(e),
                Ok((sp, at3)) => match parse_u32(b, at3) {
                    Err(e) => Err(e),
                    Ok((nv, at4)) => match parse_vocab(b, at4, nv as nat) {
                        Err(e) => Err(e),
                        Ok((v, at5)) => match parse_u32(b, at5) {
                            Err(e) => Err(e),
                            Ok((nr, at6)) => match parse_registry(b, at6, nr as nat) {
                                Err(e) => Err(e),
                                Ok((reg, at7)) => match parse_table(b, at7) {
                                    Err(e) => Err(e),
                                    Ok((ranks, at8)) => match parse_table(b, at8) {
                                        Err(e) => Err(e),
                                        Ok((targets, _)) => Ok(TokenizerModel {
                                            vocab_size: vs as usize,
                                            config_specials: sp,
                                            vocab: v,
                                            eos: reg.0,
                                            unk: reg.1,
                                            eow: reg.2,
                                            ranks,
                                            targets,
                                            built: true,
                                        }),
                                    },
                                },
                            },
                        },
                    },
                },
            },
        },
    }
}

// ---------------------------------------------------------------------
// Reading what was written

/// The registry that recording `items` in order gives.
pub open spec fn register_all(items: Seq<(SpecialToken, u32)>) -> (Option<u32>, Option<u32>, Option<u32>)
    decreases items.len(),
{
    if items.len() == 0 {
        (None, None, None)
    } else {
        register(register_all(items.drop_last()), items.last().0, items.last().1)
    }
}

proof fn lemma_sub_prefix(b: Seq<u8>, pos: int, x: Seq<u8>, y: Seq<u8>)
    requires
        0 <= pos,
        pos + x.len() + y.len() <= b.len(),
        b.subrange(pos, pos + x.len() + y.len()) == x + y,
    ensures
        b.subrange(pos, pos + x.len()) == x,
        b.subrange(pos + x.len(), pos + x.len() + y.len()) == y,
{
    assert(b.subrange(pos, pos + x.len()) =~= (x + y).subrange(0, x.len() as int));
    assert((x + y).subrange(0, x.len() as int) =~= x);
    assert(b.subrange(pos + x.len(), pos + x.len() + y.len()) =~= (x + y).subrange(x.len() as int, (x.len() + y.len()) as int));
    assert((x + y).subrange(x.len() as int, (x.len() + y.len()) as int) =~= y);
}

pub proof fn lemma_parse_u32_at(b: Seq<u8>, pos: int, v: u32)
    requires
        0 <= pos,
        pos + 4 <= b.len(),
        b.subrange(pos, pos + 4) == u32_le(v),
    ensures
        parse_u32(b, pos) == Ok::<(u32, int), Seq<char>>((v, pos + 4)),
{
    lemma_u32_round_trip(v);
    let r = b.subrange(pos, b.len() as int);
    let s = b.subrange(pos, pos + 4);
    assert(r[0] == s[0] && r[1] == s[1] && r[2] == s[2] && r[3] == s[3]);
}

proof fn lemma_parse_tags_at(b: Seq<u8>, pos: int, sp: Seq<SpecialToken>)
    requires
        0 <= pos,
        pos + sp.len() <= b.len(),
        b.subrange(pos, pos + sp.len()) == tags_bytes(sp),
    ensures
        tags_bytes(sp).len() == sp.len(),
        parse_tags(b, pos, sp.len()) == Ok::<(Seq<SpecialToken>, int), Seq<char>>((sp, pos + sp.len())),
    decreases sp.len(),
{
    if sp.len() > 0 {
        let d = sp.drop_last();
        lemma_tags_len(d);
        assert(tags_bytes(sp) =~= tags_bytes(d) + seq![special_tag(sp.last())]);
        lemma_sub_prefix(b, pos, tags_bytes(d), seq![special_tag(sp.last())]);
        lemma_parse_tags_at(b, pos, d);
        assert(d.push(sp.last()) =~= sp);
        assert(b[pos + d.len()] == b.subrange(pos + d.len(), pos + d.len() + 1)[0]);
    } else {
        assert(sp =~= seq![]);
    }
}

proof fn lemma_tags_len(sp: Seq<SpecialToken>)
    ensures
        tags_bytes(sp).len() == sp.len(),
    decreases sp.len(),
{
    if sp.len() > 0 {
        lemma_tags_len(sp.drop_last());
    }
}

/// Every entry of `v`, and `v` itself, has a length that fits 32 bits.
pub open spec fn vocab_fits(v: Seq<Seq<u8>>) -> bool {
    &&& v.len() <= u32::MAX
    &&& forall|i: int| 0 <= i < v.len() ==> (#[trigger] v[i]).len() <= u32::MAX
}

proof fn lemma_parse_vocab_at(b: Seq<u8>, pos: int, v: Seq<Seq<u8>>)
    requires
        0 <= pos,
        forall|i: int| 0 <= i < v.len() ==> (#[trigger] v[i]).len() <= u32::MAX,
        pos + vocab_bytes(v).len() <= b.len(),
        b.subrange(pos, pos + vocab_bytes(v).len()) == vocab_bytes(v),
    ensures
        parse_vocab(b, pos, v.len()) == Ok::<(Seq<Seq<u8>>, int), Seq<char>>((v, pos + vocab_bytes(v).len())),
    decreases v.len(),
{
    if v.len() > 0 {
        let d = v.drop_last();
        let x = v.last();
        let hd = vocab_bytes(d) + u32_le(x.len() as u32);
        assert(vocab_bytes(v) == hd + x);
        lemma_sub_prefix(b, pos, hd, x);
        lemma_sub_prefix(b, pos, vocab_bytes(d), u32_le(x.len() as u32));
        assert forall|i: int| 0 <= i < d.len() implies (#[trigger] d[i]).len() <= u32::MAX by {
            assert(d[i] == v[i]);
        }
        lemma_parse_vocab_at(b, pos, d);
        let p = pos + vocab_bytes(d).len();
        lemma_parse_u32_at(b, p, x.len() as u32);
        assert(b.subrange(p + 4, p + 4 + x.len()) == x);
        assert(parse_piece(b, p) == Ok::<(Seq<u8>, int), Seq<char>>((x, p + 4 + x.len())));
        assert(d.push(x) =~= v);
        assert(pos + vocab_bytes(v).len() == p + 4 + x.len());
    } else {
        assert(v =~= seq![]);
    }
}

proof fn lemma_parse_registry_at(b: Seq<u8>, pos: int, items: Seq<(SpecialToken, u32)>)
    requires
        0 <= pos,
        pos + items_bytes(items).len() <= b.len(),
        b.subrange(pos, pos + items_bytes(items).len()) == items_bytes(items),
    ensures
        parse_registry(b, pos, items.len()) == Ok::<((Option<u32>, Option<u32>, Option<u32>), int), Seq<char>>(
            (register_all(items), pos + items_bytes(items).len())),
    decreases items.len(),
{
    if items.len() > 0 {
        let d = items.drop_last();
        let x = items.last();
        let hd = items_bytes(d) + seq![special_tag(x.0)];
        lemma_sub_prefix(b, pos, hd, u32_le(x.1));
        lemma_sub_prefix(b, pos, items_bytes(d), seq![special_tag(x.0)]);
        lemma_parse_registry_at(b, pos, d);
        let p = pos + items_bytes(d).len();
        assert(b[p] == b.subrange(p, p + 1)[0]);
        lemma_parse_u32_at(b, p + 1, x.1);
    }
}

proof fn lemma_register_items(eos: Option<u32>, unk: Option<u32>, eow: Option<u32>)
    ensures
        register_all(registry_items(eos, unk, eow)) == (eos, unk, eow),
{
    let items = registry_items(eos, unk, eow);
    let a = match eos { Some(i) => seq![(SpecialToken::Eos, i)], None => seq![] };
    let ab = a + match unk { Some(i) => seq![(SpecialToken::Unk, i)], None => seq![] };
    assert(register_all(seq![]) == (None::<u32>, None::<u32>, None::<u32>));
    if let Some(i) = eos {
        assert(a.drop_last() =~= seq![]);
    }
    assert(register_all(a) == (eos, None::<u32>, None::<u32>));
    if let Some(i) = unk {
        assert(ab.drop_last() =~= a);
    } else {
        assert(ab =~= a);
    }
    assert(register_all(ab) == (eos, unk, None::<u32>));
    if let Some(i) = eow {
        assert(items.drop_last() =~= ab);
    } else {
        assert(items =~= ab);
    }
}

proof fn lemma_parse_entries_at(b: Seq<u8>, pos: int, es: Seq<Entry>)
    requires
        0 <= pos,
        pos + entries_bytes(es).len() <= b.len(),
        b.subrange(pos, pos + entries_bytes(es).len()) == entries_bytes(es),
    ensures
        parse_entries(b, pos, es.len()) == Ok::<(Seq<Entry>, int), Seq<char>>((es, pos + entries_bytes(es).len())),
    decreases es.len(),
{
    if es.len() > 0 {
        let d = es.drop_last();
        let x = es.last();
        let h1 = entries_bytes(d) + u32_le(x.0);
        let h2 = h1 + u32_le(x.1);
        lemma_sub_prefix(b, pos, h2, u32_le(x.2));
        lemma_sub_prefix(b, pos, h1, u32_le(x.1));
        lemma_sub_prefix(b, pos, entries_bytes(d), u32_le(x.0));
        lemma_parse_entries_at(b, pos, d);
        let p = pos + entries_bytes(d).len();
        lemma_parse_u32_at(b, p, x.0);
        lemma_parse_u32_at(b, p + 4, x.1);
        lemma_parse_u32_at(b, p + 8, x.2);
        assert(parse_entry(b, p) == Ok::<(Entry, int), Seq<char>>((x, p + 12)));
        assert(d.push(x) =~= es);
        assert(pos + entries_bytes(es).len() == p + 12);
    } else {
        assert(es =~= seq![]);
    }
}

/// The tokenizer as the binary form keeps it: the vocabulary target is
/// stored in 32 bits.
pub open spec fn as_stored(m: TokenizerModel) -> TokenizerModel {
    TokenizerModel { vocab_size: (m.vocab_size as u32) as usize, ..m }
}

/// Reading back what `model_bytes` wrote gives the same tokenizer (its
/// vocabulary target cut to 32 bits), when the counts and lengths fit 32 bits
/// and each table is kept in entry order with one entry per pair.
#[verifier::rlimit(40)]
pub proof fn lemma_model_round_trip(m: TokenizerModel)
    requires
        m.built,
        m.config_specials.len() <= u32::MAX,
        vocab_fits(m.vocab),
        m.ranks.len() <= u32::MAX,
        m.targets.len() <= u32::MAX,
        is_ordered(m.ranks),
        unique_pairs(m.ranks),
        is_ordered(m.targets),
        unique_pairs(m.targets),
    ensures
        parse_model(model_bytes(m)) == Ok::<TokenizerModel, Seq<char>>(as_stored(m)),
{
    let b = model_bytes(m);
    let c1 = u32_le(m.config_specials.len() as u32);
    let c2 = u32_le(m.vocab_size as u32);
    let c3 = tags_bytes(m.config_specials);
    let c4 = u32_le(m.vocab.len() as u32);
    let c5 = vocab_bytes(m.vocab);
    let items = registry_items(m.eos, m.unk, m.eow);
    let c6 = u32_le(items.len() as u32);
    let c7 = items_bytes(items);
    let c8 = u32_le(m.ranks.len() as u32);
    let c9 = entries_bytes(m.ranks);
    let c10 = u32_le(m.targets.len() as u32);
    let c11 = entries_bytes(m.targets);
    let l1 = c1;
    let l2 = l1 + c2;
    let l3 = l2 + c3;
    let l4 = l3 + c4;
    let l5 = l4 + c5;
    let reg = registry_bytes(m.eos, m.unk, m.eow);
    let l7 = l5 + reg;
    let l8 = l7 + c8;
    let l9 = l8 + c9;
    let l10 = l9 + c10;
    assert(b == l10 + c11);
    lemma_tags_len(m.config_specials);
    let at1 = 4int;
    let at2 = at1 + 4;
    let at3 = at2 + c3.len();
    let at4 = at3 + 4;
    let at5 = at4 + c5.len();
    let at6 = at5 + 4;
    let at7 = at6 + c7.len();
    let at8 = at7 + 4;
    let at9 = at8 + c9.len();
    let at10 = at9 + 4;
    let at11 = at10 + c11.len();
    assert(b.len() == at11);
    assert(b.subrange(0, at11) =~= b);
    lemma_sub_prefix(b, 0, l10, c11);
    lemma_sub_prefix(b, 0, l9, c10);
    lemma_sub_prefix(b, 0, l8, c9);
    lemma_sub_prefix(b, 0, l7, c8);
    lemma_sub_prefix(b, 0, l5, reg);
    assert(reg == c6 + c7);
    lemma_sub_prefix(b, at5, c6, c7);
    lemma_sub_prefix(b, 0, l4, c5);
    lemma_sub_prefix(b, 0, l3, c4);
    lemma_sub_prefix(b, 0, l2, c3);
    lemma_sub_prefix(b, 0, l1, c2);
    lemma_parse_u32_at(b, 0, m.config_specials.len() as u32);
    lemma_parse_u32_at(b, at1, m.vocab_size as u32);
    lemma_parse_tags_at(b, at2, m.config_specials);
    lemma_parse_u32_at(b, at3, m.vocab.len() as u32);
    lemma_parse_vocab_at(b, at4, m.vocab);
    lemma_parse_u32_at(b, at5, items.len() as u32);
    lemma_parse_registry_at(b, at6, items);
    lemma_register_items(m.eos, m.unk, m.eow);
    assert(items.len() <= 3);
    lemma_parse_u32_at(b, at7, m.ranks.len() as u32);
    lemma_parse_entries_at(b, at8, m.ranks);
    lemma_upsert_all_ordered(m.ranks);
    lemma_parse_u32_at(b, at9, m.targets.len() as u32);
    lemma_parse_entries_at(b, at10, m.targets);
    lemma_upsert_all_ordered(m.targets);
    assert(parse_table(b, at7) == Ok::<(Seq<Entry>, int), Seq<char>>((m.ranks, at9)));
    assert(parse_table(b, at9) == Ok::<(Seq<Entry>, int), Seq<char>>((m.targets, at11)));
    lemma_parse_model_steps(b, as_stored(m), at2, at3, at4, at5, at6, at7, at9);
}

proof fn lemma_parse_model_steps(b: Seq<u8>, m: TokenizerModel, at2: int, at3: int, at4: int, at5: int, at6: int, at7: int, at9: int)
    requires
        m.built,
        m.vocab_size <= u32::MAX,
        parse_u32(b, 0) == Ok::<(u32, int), Seq<char>>((m.config_specials.len() as u32, 4)),
        m.config_specials.len() <= u32::MAX,
        parse_u32(b, 4) == Ok::<(u32, int), Seq<char>>((m.vocab_size as u32, at2)),
        parse_tags(b, at2, m.config_specials.len()) == Ok::<(Seq<SpecialToken>, int), Seq<char>>((m.config_specials, at3)),
        parse_u32(b, at3) == Ok::<(u32, int), Seq<char>>((m.vocab.len() as u32, at4)),
        m.vocab.len() <= u32::MAX,
        parse_vocab(b, at4, m.vocab.len()) == Ok::<(Seq<Seq<u8>>, int), Seq<char>>((m.vocab, at5)),
        parse_u32(b, at5) == Ok::<(u32, int), Seq<char>>((registry_items(m.eos, m.unk, m.eow).len() as u32, at6)),
        registry_items(m.eos, m.unk, m.eow).len() <= 3,
        parse_registry(b, at6, registry_items(m.eos, m.unk, m.eow).len()) == Ok::<((Option<u32>, Option<u32>, Option<u32>), int), Seq<char>>(((m.eos, m.unk, m.eow), at7)),
        parse_table(b, at7) matches Ok((t, p)) && t == m.ranks && p == at9,
        parse_table(b, at9) matches Ok((t, _)) && t == m.targets,
    ensures
        parse_model(b) == Ok::<TokenizerModel, Seq<char>>(m),
{
}

// ---------------------------------------------------------------------
// Executable writers and readers

pub fn write_tags(out: &mut Vec<u8>, sp: &Vec<SpecialToken>)
    ensures
        final(out)@ == old(out)@ + tags_bytes(sp@),
{
    let ghost start = out@;
    let mut i: usize = 0;
    assert(start + tags_bytes(sp@.take(0)) =~= start);
    while i < sp.len()
        invariant
            i <= sp@.len(),
            out@ == start + tags_bytes(sp@.take(i as int)),
        decreases sp@.len() - i,
    {
        out.push(sp[i].to_u8());
        assert(sp@.take(i as int + 1).drop_last() =~= sp@.take(i as int));
        assert(out@ =~= start + tags_bytes(sp@.take(i as int + 1)));
        i = i + 1;
    }
    assert(sp@.take(sp@.len() as int) =~= sp@);
}

fn write_bytes(out: &mut Vec<u8>, b: &Vec<u8>)
    ensures
        final(out)@ == old(out)@ + b@,
{
    let ghost start = out@;
    let mut j: usize = 0;
    while j < b.len()
        invariant
            j <= b@.len(),
            out@ == start + b@.subrange(0, j as int),
        decreases b@.len() - j,
    {
        out.push(b[j]);
        assert(start + b@.subrange(0, j as int + 1) =~= (start + b@.subrange(0, j as int)).push(b[j as int]));
        j = j + 1;
    }
    assert(b@.subrange(0, b@.len() as int) =~= b@);
}

pub fn write_vocab(out: &mut Vec<u8>, v: &Vec<Vec<u8>>)
    ensures
        final(out)@ == old(out)@ + vocab_bytes(vocab_view(v@)),
{
    let ghost start = out@;
    let ghost vs = vocab_view(v@);
    let mut i: usize = 0;
    assert(start + vocab_bytes(vs.take(0)) =~= start);
    while i < v.len()
        invariant
            i <= v@.len(),
            vs == vocab_view(v@),
            out@ == start + vocab_bytes(vs.take(i as int)),
        decreases v@.len() - i,
    {
        let piece = &v[i];
        write_u32(out, piece.len() as u32);
        write_bytes(out, piece);
        proof {
            let t = vs.take(i as int + 1);
            assert(t.drop_last() =~= vs.take(i as int));
            assert(t.last() == piece@);
            assert(out@ =~= start + vocab_bytes(t));
        }
        i = i + 1;
    }
    assert(vs.take(vs.len() as int) =~= vs);
}

fn write_item(out: &mut Vec<u8>, t: SpecialToken, id: u32)
    ensures
        final(out)@ == old(out)@ + seq![special_tag(t)] + u32_le(id),
{
    out.push(t.to_u8());
    write_u32(out, id);
    assert(final(out)@ =~= old(out)@ + seq![special_tag(t)] + u32_le(id));
}

proof fn lemma_items_push(items: Seq<(SpecialToken, u32)>, x: (SpecialToken, u32))
    ensures
        items_bytes(items.push(x)) == items_bytes(items) + seq![special_tag(x.0)] + u32_le(x.1),
{
    assert(items.push(x).drop_last() =~= items);
}

pub fn write_registry(out: &mut Vec<u8>, eos: Option<u32>, unk: Option<u32>, eow: Option<u32>)
    ensures
        final(out)@ == old(out)@ + registry_bytes(eos, unk, eow),
{
    let ghost start = out@;
    let ghost items = registry_items(eos, unk, eow);
    let count: u32 = (if eos.is_some() { 1u32 } else { 0u32 }) + (if unk.is_some() { 1u32 } else { 0u32 })
        + (if eow.is_some() { 1u32 } else { 0u32 });
    assert(count == items.len());
    write_u32(out, count);
    let ghost s1 = out@;
    let ghost mut done: Seq<(SpecialToken, u32)> = seq![];
    if let Some(id) = eos {
        write_item(out, SpecialToken::Eos, id);
        proof {
            lemma_items_push(done, (SpecialToken::Eos, id));
            done = done.push((SpecialToken::Eos, id));
        }
    }
    assert(out@ =~= s1 + items_bytes(done));
    if let Some(id) = unk {
        let ghost before = out@;
        write_item(out, SpecialToken::Unk, id);
        proof {
            lemma_items_push(done, (SpecialToken::Unk, id));
            done = done.push((SpecialToken::Unk, id));
            assert(out@ =~= s1 + items_bytes(done));
        }
    }
    if let Some(id) = eow {
        write_item(out, SpecialToken::Eow, id);
        proof {
            lemma_items_push(done, (SpecialToken::Eow, id));
            done = done.push((SpecialToken::Eow, id));
            assert(out@ =~= s1 + items_bytes(done));
        }
    }
    assert(done =~= items);
    assert(out@ =~= start + registry_bytes(eos, unk, eow));
}

pub fn write_entries(out: &mut Vec<u8>, es: &Vec<Entry>)
    ensures
        final(out)@ == old(out)@ + entries_bytes(es@),
{
    let ghost start = out@;
    let mut i: usize = 0;
    assert(start + entries_bytes(es@.take(0)) =~= start);
    while i < es.len()
        invariant
            i <= es@.len(),
            out@ == start + entries_bytes(es@.take(i as int)),
        decreases es@.len() - i,
    {
        let e = es[i];
        write_u32(out, e.0);
        write_u32(out, e.1);
        write_u32(out, e.2);
        proof {
            let t = es@.take(i as int + 1);
            assert(t.drop_last() =~= es@.take(i as int));
            assert(out@ =~= start + entries_bytes(t));
        }
        i = i + 1;
    }
    assert(es@.take(es@.len() as int) =~= es@);
}

pub fn read_count(b: &[u8], pos: &mut usize) -> (r: Result<u32, String>)
    requires
        *old(pos) <= b@.len(),
    ensures
        *final(pos) <= b@.len(),
        match parse_u32(b@, *old(pos) as int) {
            Ok((v, p)) => r == Ok::<u32, String>(v) && *final(pos) == p,
            Err(msg) => r matches Err(e) && e@ == msg,
        },
{
    read_u32(b, pos)
}

fn read_tag(b: &[u8], pos: &mut usize) -> (r: Result<SpecialToken, String>)
    requires
        *old(pos) <= b@.len(),
    ensures
        *final(pos) <= b@.len(),
        match parse_tag(b@, *old(pos) as int) {
            Ok((t, p)) => r == Ok::<SpecialToken, String>(t) && *final(pos) == p,
            Err(msg) => r matches Err(e) && e@ == msg,
        },
{
    if *pos >= b.len() {
        return Err("failed to fill whole buffer".to_string());
    }
    let t = SpecialToken::from_u8(b[*pos]);
    if t.is_ok() {
        *pos = *pos + 1;
    }
    t
}

pub fn read_tags(b: &[u8], pos: &mut usize, n: u32) -> (r: Result<Vec<SpecialToken>, String>)
    requires
        *old(pos) <= b@.len(),
    ensures
        *final(pos) <= b@.len(),
        match parse_tags(b@, *old(pos) as int, n as nat) {
            Ok((ts, p)) => r matches Ok(v) && v@ == ts && *final(pos) == p,
            Err(msg) => r matches Err(e) && e@ == msg,
        },
{
    let ghost at0 = *pos as int;
    let mut out: Vec<SpecialToken> = Vec::new();
    let mut i: u32 = 0;
    while i < n
        invariant
            i <= n,
            *pos <= b@.len(),
            at0 == *old(pos) as int,
            parse_tags(b@, at0, i as nat) == Ok::<(Seq<SpecialToken>, int), Seq<char>>((out@, *pos as int)),
        decreases n - i,
    {
        let ghost before = *pos as int;
        let t = read_tag(b, pos);
        match t {
            Ok(t) => {
                out.push(t);
            },
            Err(e) => {
                proof {
                    assert(parse_tag(b@, before) == Err::<(SpecialToken, int), Seq<char>>(e@));
                    assert(parse_tags(b@, at0, (i + 1) as nat) == Err::<(Seq<SpecialToken>, int), Seq<char>>(e@));
                    lemma_tags_fail_on(b@, at0, (i + 1) as nat, n as nat);
                }
                return Err(e);
            },
        }
        i = i + 1;
    }
    Ok(out)
}

proof fn lemma_tags_fail_on(b: Seq<u8>, pos: int, i: nat, n: nat)
    requires
        i <= n,
        parse_tags(b, pos, i) is Err,
    ensures
        parse_tags(b, pos, n) == parse_tags(b, pos, i),
    decreases n - i,
{
    if i < n {
        lemma_tags_fail_on(b, pos, i, (n - 1) as nat);
    }
}

fn read_piece(b: &[u8], pos: &mut usize) -> (r: Result<Vec<u8>, String>)
    requires
        *old(pos) <= b@.len(),
    ensures
        *final(pos) <= b@.len(),
        match parse_piece(b@, *old(pos) as int) {
            Ok((v, p)) => r matches Ok(x) && x@ == v && *final(pos) == p,
            Err(msg) => r matches Err(e) && e@ == msg,
        },
{
    let n = read_u32(b, pos)?;
    let n = n as usize;
    if b.len() - *pos < n {
        return Err("failed to fill whole buffer".to_string());
    }
    let start = *pos;
    let mut out: Vec<u8> = Vec::new();
    let mut j: usize = 0;
    while j < n
        invariant
            j <= n,
            start + n <= b@.len(),
            b@.len() <= usize::MAX,
            out@ == b@.subrange(start as int, start + j),
        decreases n - j,
    {
        out.push(b[start + j]);
        assert(b@.subrange(start as int, start + j + 1) =~= b@.subrange(start as int, start + j).push(b[start + j]));
        j = j + 1;
    }
    *pos = start + n;
    Ok(out)
}

proof fn lemma_vocab_fail_on(b: Seq<u8>, pos: int, i: nat, n: nat)
    requires
        i <= n,
        parse_vocab(b, pos, i) is Err,
    ensures
        parse_vocab(b, pos, n) == parse_vocab(b, pos, i),
    decreases n - i,
{
    if i < n {
        lemma_vocab_fail_on(b, pos, i, (n - 1) as nat);
    }
}

pub fn read_vocab(b: &[u8], pos: &mut usize, n: u32) -> (r: Result<Vec<Vec<u8>>, String>)
    requires
        *old(pos) <= b@.len(),
    ensures
        *final(pos) <= b@.len(),
        match parse_vocab(b@, *old(pos) as int, n as nat) {
            Ok((vs, p)) => r matches Ok(v) && vocab_view(v@) == vs && *final(pos) == p,
            Err(msg) => r matches Err(e) && e@ == msg,
        },
{
    let ghost at0 = *pos as int;
    let mut out: Vec<Vec<u8>> = Vec::new();
    let mut i: u32 = 0;
    assert(vocab_view(out@) =~= seq![]);
    while i < n
        invariant
            i <= n,
            *pos <= b@.len(),
            at0 == *old(pos) as int,
            parse_vocab(b@, at0, i as nat) == Ok::<(Seq<Seq<u8>>, int), Seq<char>>((vocab_view(out@), *pos as int)),
        decreases n - i,
    {
        let ghost before = *pos as int;
        match read_piece(b, pos) {
            Ok(x) => {
                let ghost prev = out@;
                out.push(x);
                assert(vocab_view(out@) =~= vocab_view(prev).push(x@));
            },
            Err(e) => {
                proof {
                    assert(parse_piece(b@, before) == Err::<(Seq<u8>, int), Seq<char>>(e@));
                    assert(parse_vocab(b@, at0, (i + 1) as nat) == Err::<(Seq<Seq<u8>>, int), Seq<char>>(e@));
                    lemma_vocab_fail_on(b@, at0, (i + 1) as nat, n as nat);
                }
                return Err(e);
            },
        }
        i = i + 1;
    }
    Ok(out)
}

proof fn lemma_registry_fail_on(b: Seq<u8>, pos: int, i: nat, n: nat)
    requires
        i <= n,
        parse_registry(b, pos, i) is Err,
    ensures
        parse_registry(b, pos, n) == parse_registry(b, pos, i),
    decreases n - i,
{
    if i < n {
        lemma_registry_fail_on(b, pos, i, (n - 1) as nat);
    }
}

pub fn read_registry(b: &[u8], pos: &mut usize, n: u32) -> (r: Result<(Option<u32>, Option<u32>, Option<u32>), String>)
    requires
        *old(pos) <= b@.len(),
    ensures
        *final(pos) <= b@.len(),
        match parse_registry(b@, *old(pos) as int, n as nat) {
            Ok((reg, p)) => r == Ok::<(Option<u32>, Option<u32>, Option<u32>), String>(reg) && *final(pos) == p,
            Err(msg) => r matches Err(e) && e@ == msg,
        },
{
    let ghost at0 = *pos as int;
    let mut eos: Option<u32> = None;
    let mut unk: Option<u32> = None;
    let mut eow: Option<u32> = None;
    let mut i: u32 = 0;
    while i < n
        invariant
            i <= n,
            *pos <= b@.len(),
            at0 == *old(pos) as int,
            parse_registry(b@, at0, i as nat) == Ok::<((Option<u32>, Option<u32>, Option<u32>), int), Seq<char>>(((eos, unk, eow), *pos as int)),
        decreases n - i,
    {
        let ghost before = *pos as int;
        let t = match read_tag(b, pos) {
            Ok(t) => t,
            Err(e) => {
                proof {
                    assert(parse_registry(b@, at0, (i + 1) as nat) == Err::<((Option<u32>, Option<u32>, Option<u32>), int), Seq<char>>(e@));
                    lemma_registry_fail_on(b@, at0, (i + 1) as nat, n as nat);
                }
                return Err(e);
            },
        };
        let ghost mid = *pos as int;
        let id = match read_u32(b, pos) {
            Ok(id) => id,
            Err(e) => {
                proof {
                    assert(parse_tag(b@, before) == Ok::<(SpecialToken, int), Seq<char>>((t, mid)));
                    assert(parse_registry(b@, at0, (i + 1) as nat) == Err::<((Option<u32>, Option<u32>, Option<u32>), int), Seq<char>>(e@));
                    lemma_registry_fail_on(b@, at0, (i + 1) as nat, n as nat);
                }
                return Err(e);
            },
        };
        match t {
            SpecialToken::Eos => eos = Some(id),
            SpecialToken::Unk => unk = Some(id),
            SpecialToken::Eow => eow = Some(id),
        }
        i = i + 1;
    }
    Ok((eos, unk, eow))
}

proof fn lemma_entries_fail_on(b: Seq<u8>, pos: int, i: nat, n: nat)
    requires
        i <= n,
        parse_entries(b, pos, i) is Err,
    ensures
        parse_entries(b, pos, n) == parse_entries(b, pos, i),
    decreases n - i,
{
    if i < n {
        lemma_entries_fail_on(b, pos, i, (n - 1) as nat);
    }
}

fn read_entry(b: &[u8], pos: &mut usize) -> (r: Result<Entry, String>)
    requires
        *old(pos) <= b@.len(),
    ensures
        *final(pos) <= b@.len(),
        match parse_entry(b@, *old(pos) as int) {
            Ok((e, p)) => r == Ok::<Entry, String>(e) && *final(pos) == p,
            Err(msg) => r matches Err(e) && e@ == msg,
        },
{
    let x = read_u32(b, pos)?;
    let y = read_u32(b, pos)?;
    let v = read_u32(b, pos)?;
    Ok((x, y, v))
}

/// Reads a table: its count, then its entries, recorded one by one (see
/// `parse_table`).
pub fn read_table(b: &[u8], pos: &mut usize) -> (r: Result<Vec<Entry>, String>)
    requires
        *old(pos) <= b@.len(),
    ensures
        *final(pos) <= b@.len(),
        match parse_table(b@, *old(pos) as int) {
            Ok((es, p)) => r matches Ok(v) && v@ == es && *final(pos) == p,
            Err(msg) => r matches Err(e) && e@ == msg,
        },
{
    let n = read_u32(b, pos)?;
    let ghost at0 = *pos as int;
    let ghost mut raw: Seq<Entry> = seq![];
    let mut out: Vec<Entry> = Vec::new();
    let mut i: u32 = 0;
    while i < n
        invariant
            i <= n,
            *pos <= b@.len(),
            at0 == *old(pos) + 4,
            parse_u32(b@, *old(pos) as int) == Ok::<(u32, int), Seq<char>>((n, at0)),
            parse_entries(b@, at0, i as nat) == Ok::<(Seq<Entry>, int), Seq<char>>((raw, *pos as int)),
            out@ == upsert_all(raw),
        decreases n - i,
    {
        let ghost before = *pos as int;
        match read_entry(b, pos) {
            Ok(e) => {
                upsert_exec(&mut out, e);
                proof {
                    let r2 = raw.push(e);
                    assert(r2.drop_last() =~= raw);
                    raw = r2;
                }
            },
            Err(e) => {
                proof {
                    assert(parse_entries(b@, at0, (i + 1) as nat) == Err::<(Seq<Entry>, int), Seq<char>>(e@));
                    lemma_entries_fail_on(b@, at0, (i + 1) as nat, n as nat);
                }
                return Err(e);
            },
        }
        i = i + 1;
    }
    Ok(out)
}

} // verus!
