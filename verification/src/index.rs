//! The in-memory index: an association list from key bytes to the offset of
//! the key's live record, with at most one entry per key.

use vstd::prelude::*;

verus! {

/// The mapping an association list denotes; a later entry for the same key
/// would win, though well-formed indexes keep keys distinct.
pub open spec fn assoc_map(entries: Seq<(Vec<u8>, usize)>) -> Map<Seq<u8>, int>
    decreases entries.len(),
{
    if entries.len() == 0 {
        Map::empty()
    } else {
        assoc_map(entries.drop_last()).insert(entries.last().0@, entries.last().1 as int)
    }
}

/// No two entries share a key.
pub open spec fn distinct_keys(entries: Seq<(Vec<u8>, usize)>) -> bool {
    forall|i: int, j: int| 0 <= i < j < entries.len() ==> entries[i].0@ != entries[j].0@
}

pub proof fn lemma_assoc_contains(entries: Seq<(Vec<u8>, usize)>, k: Seq<u8>)
    ensures
        assoc_map(entries).contains_key(k) <==> exists|i: int|
            0 <= i < entries.len() && entries[i].0@ == k,
    decreases entries.len(),
{
    if entries.len() > 0 {
        lemma_assoc_contains(entries.drop_last(), k);
        if entries.last().0@ == k {
            assert(entries[entries.len() - 1].0@ == k);
        } else {
            if exists|i: int| 0 <= i < entries.drop_last().len() && entries.drop_last()[i].0@
                == k {
                let i = choose|i: int|
                    0 <= i < entries.drop_last().len() && entries.drop_last()[i].0@ == k;
                assert(entries[i].0@ == k);
            }
            if exists|i: int| 0 <= i < entries.len() && entries[i].0@ == k {
                let i = choose|i: int| 0 <= i < entries.len() && entries[i].0@ == k;
                assert(i < entries.len() - 1);
                assert(entries.drop_last()[i].0@ == k);
            }
        }
    }
}

pub proof fn lemma_assoc_value(entries: Seq<(Vec<u8>, usize)>, i: int)
    requires
        distinct_keys(entries),
        0 <= i < entries.len(),
    ensures
        assoc_map(entries).contains_key(entries[i].0@),
        assoc_map(entries)[entries[i].0@] == entries[i].1 as int,
    decreases entries.len(),
{
    if i == entries.len() - 1 {
    } else {
        assert(distinct_keys(entries.drop_last()));
        assert(entries.drop_last()[i] == entries[i]);
        lemma_assoc_value(entries.drop_last(), i);
        assert(entries.last().0@ != entries[i].0@);
    }
}

pub proof fn lemma_assoc_push(entries: Seq<(Vec<u8>, usize)>, e: (Vec<u8>, usize))
    requires
        distinct_keys(entries),
        forall|i: int| 0 <= i < entries.len() ==> entries[i].0@ != e.0@,
    ensures
        assoc_map(entries.push(e)) == assoc_map(entries).insert(e.0@, e.1 as int),
        distinct_keys(entries.push(e)),
{
    assert(entries.push(e).drop_last() =~= entries);
    assert(entries.push(e).last() == e);
    assert(forall|i: int, j: int|
        0 <= i < j < entries.push(e).len() ==> entries.push(e)[i].0@ != entries.push(e)[j].0@);
}

pub proof fn lemma_assoc_remove(entries: Seq<(Vec<u8>, usize)>, i: int)
    requires
        distinct_keys(entries),
        0 <= i < entries.len(),
    ensures
        assoc_map(entries.remove(i)) == assoc_map(entries).remove(entries[i].0@),
        distinct_keys(entries.remove(i)),
    decreases entries.len(),
{
    let k = entries[i].0@;
    assert(forall|a: int, b: int|
        0 <= a < b < entries.remove(i).len() ==> entries.remove(i)[a].0@ != entries.remove(
            i,
        )[b].0@);
    if i == entries.len() - 1 {
        assert(entries.remove(i) =~= entries.drop_last());
        lemma_assoc_contains(entries.drop_last(), k);
        assert(forall|j: int|
            0 <= j < entries.drop_last().len() ==> entries.drop_last()[j].0@ != k);
        assert(!assoc_map(entries.drop_last()).contains_key(k));
        assert(assoc_map(entries.drop_last()) =~= assoc_map(entries.drop_last()).insert(
            k,
            entries[i].1 as int,
        ).remove(k));
    } else {
        assert(distinct_keys(entries.drop_last()));
        assert(entries.drop_last()[i] == entries[i]);
        lemma_assoc_remove(entries.drop_last(), i);
        assert(entries.remove(i).drop_last() =~= entries.drop_last().remove(i));
        assert(entries.remove(i).last() == entries.last());
        assert(entries.last().0@ != k);
        assert(assoc_map(entries.drop_last()).remove(k).insert(
            entries.last().0@,
            entries.last().1 as int,
        ) =~= assoc_map(entries.drop_last()).insert(
            entries.last().0@,
            entries.last().1 as int,
        ).remove(k));
    }
}

/// Whether two byte vectors hold the same bytes.
pub fn bytes_eq(a: &Vec<u8>, b: &Vec<u8>) -> (r: bool)
    ensures
        r == (a@ == b@),
{
    if a.len() != b.len() {
        assert(a@ != b@);
        return false;
    }
    let n = a.len();
    let mut i: usize = 0;
    while i < n
        invariant
            i <= n,
            n == a@.len() == b@.len(),
            forall|j: int| 0 <= j < i ==> a@[j] == b@[j],
        decreases n - i,
    {
        if a[i] != b[i] {
            assert(a@[i as int] != b@[i as int]);
            return false;
        }
        i = i + 1;
    }
    assert(a@ =~= b@);
    true
}

/// Look a key up in the index.
pub fn index_get(index: &Vec<(Vec<u8>, usize)>, key: &Vec<u8>) -> (r: Option<usize>)
    requires
        distinct_keys(index@),
    ensures
        match r {
            Some(off) => assoc_map(index@).contains_key(key@) && assoc_map(index@)[key@]
                == off as int,
            None => !assoc_map(index@).contains_key(key@),
        },
{
    let n = index.len();
    let mut i: usize = 0;
    while i < n
        invariant
            i <= n,
            n == index@.len(),
            distinct_keys(index@),
            forall|j: int| 0 <= j < i ==> index@[j].0@ != key@,
        decreases n - i,
    {
        if bytes_eq(&index[i].0, key) {
            proof {
                lemma_assoc_value(index@, i as int);
            }
            return Some(index[i].1);
        }
        i = i + 1;
    }
    proof {
        lemma_assoc_contains(index@, key@);
    }
    None
}

/// Copy the bytes of `src` into a fresh vector.
fn bytes_clone(src: &Vec<u8>) -> (r: Vec<u8>)
    ensures
        r@ == src@,
{
    let mut out: Vec<u8> = Vec::new();
    let n = src.len();
    let mut i: usize = 0;
    while i < n
        invariant
            i <= n,
            n == src@.len(),
            out@ == src@.subrange(0, i as int),
        decreases n - i,
    {
        out.push(src[i]);
        i = i + 1;
        assert(out@ =~= src@.subrange(0, i as int));
    }
    assert(out@ =~= src@);
    out
}

/// Map `key` to `off`, replacing any earlier entry for the key.
pub fn index_insert(index: &mut Vec<(Vec<u8>, usize)>, key: &Vec<u8>, off: usize)
    requires
        distinct_keys(old(index)@),
    ensures
        distinct_keys(final(index)@),
        assoc_map(final(index)@) == assoc_map(old(index)@).insert(key@, off as int),
{
    let n = index.len();
    let mut i: usize = 0;
    while i < n
        invariant
            i <= n,
            n == index@.len(),
            index@ == old(index)@,
            distinct_keys(index@),
            forall|j: int| 0 <= j < i ==> index@[j].0@ != key@,
        decreases n - i,
    {
        if bytes_eq(&index[i].0, key) {
            proof {
                lemma_assoc_remove(index@, i as int);
            }
            let ghost removed = index@.remove(i as int);
            index.remove(i);
            proof {
                lemma_assoc_contains(removed, key@);
                assert(forall|j: int| 0 <= j < removed.len() ==> removed[j].0@ != key@);
            }
            let k2 = bytes_clone(key);
            index.push((k2, off));
            proof {
                lemma_assoc_push(removed, (k2, off));
                assert(assoc_map(old(index)@).remove(key@).insert(key@, off as int)
                    =~= assoc_map(old(index)@).insert(key@, off as int));
            }
            return ;
        }
        i = i + 1;
    }
    let k2 = bytes_clone(key);
    index.push((k2, off));
    proof {
        lemma_assoc_push(old(index)@, (k2, off));
    }
}

/// Drop the entry for `key`, if there is one.
pub fn index_remove(index: &mut Vec<(Vec<u8>, usize)>, key: &Vec<u8>)
    requires
        distinct_keys(old(index)@),
    ensures
        distinct_keys(final(index)@),
        assoc_map(final(index)@) == assoc_map(old(index)@).remove(key@),
{
    let n = index.len();
    let mut i: usize = 0;
    while i < n
        invariant
            i <= n,
            n == index@.len(),
            index@ == old(index)@,
            distinct_keys(index@),
            forall|j: int| 0 <= j < i ==> index@[j].0@ != key@,
        decreases n - i,
    {
        if bytes_eq(&index[i].0, key) {
            proof {
                lemma_assoc_remove(index@, i as int);
            }
            index.remove(i);
            return ;
        }
        i = i + 1;
    }
    proof {
        lemma_assoc_contains(index@, key@);
        assert(assoc_map(index@) =~= assoc_map(index@).remove(key@));
    }
}

/// Whether some entry of the index holds the offset `off`.
pub fn offset_in_index(index: &Vec<(Vec<u8>, usize)>, off: usize) -> (r: bool)
    ensures
        r == exists|i: int| 0 <= i < index@.len() && index@[i].1 == off,
{
    let n = index.len();
    let mut i: usize = 0;
    while i < n
        invariant
            i <= n,
            n == index@.len(),
            forall|j: int| 0 <= j < i ==> index@[j].1 != off,
        decreases n - i,
    {
        if index[i].1 == off {
            return true;
        }
        i = i + 1;
    }
    false
}

} // verus!
