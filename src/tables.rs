use vstd::prelude::*;

verus! {

/// A merge-table entry `(a, b, v)`: the pair `(a, b)` and its value (a rank
/// or a merged id).
pub type Entry = (u32, u32, u32);

/// The order in which entries are kept: by value, then by pair.
pub open spec fn entry_lt(x: Entry, y: Entry) -> bool {
    x.2 < y.2 || (x.2 == y.2 && (x.0 < y.0 || (x.0 == y.0 && x.1 < y.1)))
}

/// The value recorded for the pair `(a, b)`; the latest entry wins.
pub open spec fn lookup(s: Seq<Entry>, a: u32, b: u32) -> Option<u32>
    decreases s.len(),
{
    if s.len() == 0 {
        None
    } else if s.last().0 == a && s.last().1 == b {
        Some(s.last().2)
    } else {
        lookup(s.drop_last(), a, b)
    }
}

/// `s` without the entries for the pair `(a, b)`.
pub open spec fn without_pair(s: Seq<Entry>, a: u32, b: u32) -> Seq<Entry>
    decreases s.len(),
{
    if s.len() == 0 {
        s
    } else if s.last().0 == a && s.last().1 == b {
        without_pair(s.drop_last(), a, b)
    } else {
        without_pair(s.drop_last(), a, b).push(s.last())
    }
}

/// `e` placed right after the last entry of `s` that orders before it.
pub open spec fn insert_ordered(s: Seq<Entry>, e: Entry) -> Seq<Entry>
    decreases s.len(),
{
    if s.len() == 0 {
        seq![e]
    } else if entry_lt(s.last(), e) {
        s.push(e)
    } else {
        insert_ordered(s.drop_last(), e).push(s.last())
    }
}

/// Records `e`, replacing any earlier entry for its pair, in entry order.
pub open spec fn upsert(s: Seq<Entry>, e: Entry) -> Seq<Entry> {
    insert_ordered(without_pair(s, e.0, e.1), e)
}

/// The table that recording `es` one by one into an empty table gives.
pub open spec fn upsert_all(es: Seq<Entry>) -> Seq<Entry>
    decreases es.len(),
{
    if es.len() == 0 {
        seq![]
    } else {
        upsert(upsert_all(es.drop_last()), es.last())
    }
}

/// Entries strictly increase in entry order.
pub open spec fn is_ordered(s: Seq<Entry>) -> bool
    decreases s.len(),
{
    s.len() < 2 || (is_ordered(s.drop_last()) && entry_lt(s[s.len() - 2], s.last()))
}

/// No pair has two entries.
pub open spec fn unique_pairs(s: Seq<Entry>) -> bool
    decreases s.len(),
{
    s.len() == 0 || (unique_pairs(s.drop_last()) && lookup(s.drop_last(), s.last().0, s.last().1) is None)
}

pub proof fn lemma_lookup_push(s: Seq<Entry>, e: Entry, a: u32, b: u32)
    ensures
        lookup(s.push(e), a, b) == if e.0 == a && e.1 == b { Some(e.2) } else { lookup(s, a, b) },
{
    assert(s.push(e).drop_last() =~= s);
}

pub proof fn lemma_lookup_without(s: Seq<Entry>, k0: u32, k1: u32, a: u32, b: u32)
    ensures
        lookup(without_pair(s, k0, k1), a, b) == if k0 == a && k1 == b { None } else { lookup(s, a, b) },
    decreases s.len(),
{
    if s.len() > 0 {
        lemma_lookup_without(s.drop_last(), k0, k1, a, b);
        if !(s.last().0 == k0 && s.last().1 == k1) {
            lemma_lookup_push(without_pair(s.drop_last(), k0, k1), s.last(), a, b);
        }
    }
}

pub proof fn lemma_without_absent(s: Seq<Entry>, a: u32, b: u32)
    requires
        lookup(s, a, b) is None,
    ensures
        without_pair(s, a, b) == s,
    decreases s.len(),
{
    if s.len() > 0 {
        lemma_without_absent(s.drop_last(), a, b);
        assert(s.drop_last().push(s.last()) =~= s);
    }
}

pub proof fn lemma_lookup_insert(s: Seq<Entry>, e: Entry, a: u32, b: u32)
    requires
        lookup(s, e.0, e.1) is None,
    ensures
        lookup(insert_ordered(s, e), a, b) == if e.0 == a && e.1 == b { Some(e.2) } else { lookup(s, a, b) },
    decreases s.len(),
{
    if s.len() == 0 {
        lemma_lookup_push(s, e, a, b);
        assert(s.push(e) =~= seq![e]);
    } else if entry_lt(s.last(), e) {
        lemma_lookup_push(s, e, a, b);
    } else {
        assert(s.drop_last().push(s.last()) =~= s);
        lemma_lookup_push(s.drop_last(), s.last(), e.0, e.1);
        lemma_lookup_push(s.drop_last(), s.last(), a, b);
        lemma_lookup_insert(s.drop_last(), e, a, b);
        lemma_lookup_push(insert_ordered(s.drop_last(), e), s.last(), a, b);
    }
}

/// After recording `e`, its pair maps to its value and every other pair
/// keeps its value.
pub proof fn lemma_lookup_upsert(s: Seq<Entry>, e: Entry, a: u32, b: u32)
    ensures
        lookup(upsert(s, e), a, b) == if e.0 == a && e.1 == b { Some(e.2) } else { lookup(s, a, b) },
{
    lemma_lookup_without(s, e.0, e.1, e.0, e.1);
    lemma_lookup_without(s, e.0, e.1, a, b);
    lemma_lookup_insert(without_pair(s, e.0, e.1), e, a, b);
}

pub proof fn lemma_insert_len_last(s: Seq<Entry>, e: Entry)
    ensures
        insert_ordered(s, e).len() == s.len() + 1,
        insert_ordered(s, e).last() == e || (s.len() > 0 && insert_ordered(s, e).last() == s.last()),
    decreases s.len(),
{
    if s.len() > 0 && !entry_lt(s.last(), e) {
        lemma_insert_len_last(s.drop_last(), e);
    }
}

pub proof fn lemma_insert_keeps_order(s: Seq<Entry>, e: Entry)
    requires
        is_ordered(s),
        unique_pairs(s),
        lookup(s, e.0, e.1) is None,
    ensures
        is_ordered(insert_ordered(s, e)),
        unique_pairs(insert_ordered(s, e)),
    decreases s.len(),
{
    let r = insert_ordered(s, e);
    if s.len() == 0 {
        assert(r.drop_last() =~= seq![]);
        assert(unique_pairs(r.drop_last()));
    } else if entry_lt(s.last(), e) {
        assert(r.drop_last() =~= s);
    } else {
        let t = s.drop_last();
        let r1 = insert_ordered(t, e);
        assert(r.drop_last() =~= r1);
        assert(t.push(s.last()) =~= s);
        lemma_lookup_push(t, s.last(), e.0, e.1);
        lemma_insert_keeps_order(t, e);
        lemma_insert_len_last(t, e);
        lemma_lookup_insert(t, e, s.last().0, s.last().1);
        assert(e != s.last());
        if r1.last() != e {
            assert(s[s.len() - 2] == t.last());
        }
        assert(r[r.len() - 2] == r1.last());
        assert(r.last() == s.last());
        assert(unique_pairs(t));
        assert(lookup(t, s.last().0, s.last().1) is None);
        assert(lookup(r1, s.last().0, s.last().1) is None);
    }
}

/// Recording, one by one, the entries of an ordered table with distinct
/// pairs gives that table back.
pub proof fn lemma_upsert_all_ordered(es: Seq<Entry>)
    requires
        is_ordered(es),
        unique_pairs(es),
    ensures
        upsert_all(es) == es,
    decreases es.len(),
{
    if es.len() > 0 {
        let t = es.drop_last();
        lemma_upsert_all_ordered(t);
        lemma_without_absent(t, es.last().0, es.last().1);
        if t.len() > 0 {
            assert(t.last() == es[es.len() - 2]);
        }
        assert(t.push(es.last()) =~= es);
    }
}

/// The value recorded for `(a, b)`, searched from the newest entry.
pub fn lookup_exec(s: &Vec<Entry>, a: u32, b: u32) -> (r: Option<u32>)
    ensures
        r == lookup(s@, a, b),
{
    let mut i: usize = s.len();
    assert(s@.subrange(0, i as int) =~= s@);
    while i > 0
        invariant
            i <= s@.len(),
            lookup(s@, a, b) == lookup(s@.subrange(0, i as int), a, b),
        decreases i,
    {
        let e = s[i - 1];
        assert(s@.subrange(0, i as int).drop_last() =~= s@.subrange(0, i - 1));
        if e.0 == a && e.1 == b {
            return Some(e.2);
        }
        i = i - 1;
    }
    None
}

pub fn entry_lt_exec(x: Entry, y: Entry) -> (r: bool)
    ensures
        r == entry_lt(x, y),
{
    x.2 < y.2 || (x.2 == y.2 && (x.0 < y.0 || (x.0 == y.0 && x.1 < y.1)))
}

/// Records `e` in `s` (see `upsert`).
pub fn upsert_exec(s: &mut Vec<Entry>, e: Entry)
    ensures
        final(s)@ == upsert(old(s)@, e),
{
    let mut kept: Vec<Entry> = Vec::new();
    let mut i: usize = 0;
    while i < s.len()
        invariant
            i <= s@.len(),
            kept@ == without_pair(s@.subrange(0, i as int), e.0, e.1),
        decreases s@.len() - i,
    {
        let x = s[i];
        assert(s@.subrange(0, i as int + 1).drop_last() =~= s@.subrange(0, i as int));
        if !(x.0 == e.0 && x.1 == e.1) {
            kept.push(x);
        }
        i = i + 1;
    }
    assert(s@.subrange(0, s@.len() as int) =~= s@);
    let mut p: usize = kept.len();
    assert(kept@.subrange(0, p as int) =~= kept@);
    assert(insert_ordered(kept@, e) + kept@.subrange(p as int, kept@.len() as int) =~= insert_ordered(kept@, e));
    while p > 0 && !entry_lt_exec(kept[p - 1], e)
        invariant
            p <= kept@.len(),
            insert_ordered(kept@, e) == insert_ordered(kept@.subrange(0, p as int), e) + kept@.subrange(p as int, kept@.len() as int),
        decreases p,
    {
        let ghost t = kept@.subrange(0, p as int);
        assert(t.drop_last() =~= kept@.subrange(0, p - 1));
        assert(insert_ordered(t, e) == insert_ordered(t.drop_last(), e).push(t.last()));
        assert(insert_ordered(t.drop_last(), e).push(t.last()) + kept@.subrange(p as int, kept@.len() as int)
            =~= insert_ordered(t.drop_last(), e) + kept@.subrange(p - 1, kept@.len() as int));
        p = p - 1;
    }
    proof {
        let t = kept@.subrange(0, p as int);
        assert(insert_ordered(t, e) =~= t.push(e));
    }
    kept.insert(p, e);
    assert(kept@ =~= upsert(old(s)@, e));
    *s = kept;
}

} // verus!
