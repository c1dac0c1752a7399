//! The log store: an append-only byte log of records together with the
//! in-memory index from each key to the offset of its live record. The
//! abstract contents of a store is the map from key bytes to live value
//! bytes; replaying the log from the start rebuilds that map, except that a
//! key whose live record has an empty value reads back as absent, an empty
//! value being the shape of a tombstone.

use vstd::prelude::*;

use crate::index::assoc_map;
use crate::index::bytes_eq;
use crate::index::distinct_keys;
use crate::index::index_get;
use crate::index::index_insert;
use crate::index::index_remove;
use crate::index::lemma_assoc_contains;
use crate::index::offset_in_index;
use crate::record::encode_record;
use crate::record::key_at;
use crate::record::key_len_at;
use crate::record::process_record;
use crate::record::record_bytes;
use crate::record::record_complete;
use crate::record::record_end;
use crate::record::lemma_le32_u32_le;
use crate::record::payload_at;
use crate::record::stored_checksum;
use crate::record::val_len_at;
use crate::record::valid_record_at;
use crate::record::value_at;
use crate::record::KeyValuePair;
use crate::record::StoreError;

verus! {

/// A record in a prefix of the log keeps all of its fields when more bytes
/// are appended after it.
pub proof fn lemma_record_local(log: Seq<u8>, ext: Seq<u8>, pos: int)
    requires
        record_complete(log, pos),
    ensures
        record_complete(log + ext, pos),
        stored_checksum(log + ext, pos) == stored_checksum(log, pos),
        key_len_at(log + ext, pos) == key_len_at(log, pos),
        val_len_at(log + ext, pos) == val_len_at(log, pos),
        record_end(log + ext, pos) == record_end(log, pos),
        payload_at(log + ext, pos) == payload_at(log, pos),
        key_at(log + ext, pos) == key_at(log, pos),
        value_at(log + ext, pos) == value_at(log, pos),
        valid_record_at(log + ext, pos) == valid_record_at(log, pos),
{
    let l2 = log + ext;
    assert(l2.subrange(pos, pos + 4) =~= log.subrange(pos, pos + 4));
    assert(l2.subrange(pos + 4, pos + 8) =~= log.subrange(pos + 4, pos + 8));
    assert(l2.subrange(pos + 8, pos + 12) =~= log.subrange(pos + 8, pos + 12));
    assert(record_end(l2, pos) == record_end(log, pos));
    assert(l2.subrange(pos + 12, record_end(log, pos)) =~= log.subrange(
        pos + 12,
        record_end(log, pos),
    ));
    assert(l2.subrange(pos + 12, pos + 12 + key_len_at(log, pos)) =~= log.subrange(
        pos + 12,
        pos + 12 + key_len_at(log, pos),
    ));
    assert(l2.subrange(pos + 12 + key_len_at(log, pos), record_end(log, pos)) =~= log.subrange(
        pos + 12 + key_len_at(log, pos),
        record_end(log, pos),
    ));
}

/// Appending one encoded record to the log puts a valid record at the old
/// end of the log, holding exactly the given key and value.
pub proof fn lemma_record_at_append(log: Seq<u8>, key: Seq<u8>, value: Seq<u8>)
    requires
        key.len() + value.len() <= u32::MAX,
    ensures
        ({
            let l2 = log + record_bytes(key, value);
            let pos = log.len() as int;
            &&& valid_record_at(l2, pos)
            &&& key_at(l2, pos) == key
            &&& value_at(l2, pos) == value
            &&& record_end(l2, pos) == l2.len()
        }),
{
    let l2 = log + record_bytes(key, value);
    let pos = log.len() as int;
    let crc = crate::record::crc32_of(key + value);
    assert(l2.subrange(pos, pos + 4) =~= crate::record::u32_le(crc));
    assert(l2.subrange(pos + 4, pos + 8) =~= crate::record::u32_le(key.len() as u32));
    assert(l2.subrange(pos + 8, pos + 12) =~= crate::record::u32_le(value.len() as u32));
    lemma_le32_u32_le(crc);
    lemma_le32_u32_le(key.len() as u32);
    lemma_le32_u32_le(value.len() as u32);
    assert(key_len_at(l2, pos) == key.len());
    assert(val_len_at(l2, pos) == value.len());
    assert(record_end(l2, pos) == l2.len());
    assert(payload_at(l2, pos) =~= key + value);
    assert(key_at(l2, pos) =~= key);
    assert(value_at(l2, pos) =~= value);
}

/// The records of the log from `pos` on, if every byte from `pos` to the end
/// belongs to a valid record.
pub open spec fn records_from(log: Seq<u8>, pos: int) -> Option<Seq<(Seq<u8>, Seq<u8>)>>
    decreases log.len() - pos,
    when 0 <= pos <= log.len()
{
    if pos == log.len() {
        Some(Seq::empty())
    } else if valid_record_at(log, pos) {
        match records_from(log, record_end(log, pos)) {
            Some(rs) => Some(seq![(key_at(log, pos), value_at(log, pos))] + rs),
            None => None,
        }
    } else {
        None
    }
}

/// Replay a sequence of records: a record with a non-empty value makes its
/// key live, a record with an empty value is a tombstone and removes it.
pub open spec fn map_of(rs: Seq<(Seq<u8>, Seq<u8>)>) -> Map<Seq<u8>, Seq<u8>>
    decreases rs.len(),
{
    if rs.len() == 0 {
        Map::empty()
    } else {
        let m = map_of(rs.drop_last());
        let (k, v) = rs.last();
        if v.len() > 0 {
            m.insert(k, v)
        } else {
            m.remove(k)
        }
    }
}

pub proof fn lemma_map_of_push(rs: Seq<(Seq<u8>, Seq<u8>)>, k: Seq<u8>, v: Seq<u8>)
    ensures
        map_of(rs.push((k, v))) == if v.len() > 0 {
            map_of(rs).insert(k, v)
        } else {
            map_of(rs).remove(k)
        },
{
    assert(rs.push((k, v)).drop_last() =~= rs);
    assert(rs.push((k, v)).last() == (k, v));
}

/// Appending one encoded record to a fully valid log appends one entry to
/// its record sequence.
pub proof fn lemma_records_append(log: Seq<u8>, pos: int, key: Seq<u8>, value: Seq<u8>)
    requires
        0 <= pos <= log.len(),
        records_from(log, pos) is Some,
        key.len() + value.len() <= u32::MAX,
    ensures
        records_from(log + record_bytes(key, value), pos) == Some(
            records_from(log, pos)->Some_0.push((key, value)),
        ),
    decreases log.len() - pos,
{
    let l2 = log + record_bytes(key, value);
    if pos == log.len() {
        lemma_record_at_append(log, key, value);
        assert(records_from(l2, record_end(l2, pos)) == Some(Seq::<(Seq<u8>, Seq<u8>)>::empty()));
        assert(records_from(l2, pos) == Some(
            seq![(key, value)] + Seq::<(Seq<u8>, Seq<u8>)>::empty(),
        ));
        assert(seq![(key, value)] + Seq::<(Seq<u8>, Seq<u8>)>::empty()
            =~= Seq::<(Seq<u8>, Seq<u8>)>::empty().push((key, value)));
    } else {
        assert(valid_record_at(log, pos));
        lemma_record_local(log, record_bytes(key, value), pos);
        lemma_records_append(log, record_end(log, pos), key, value);
        let rest = records_from(log, record_end(log, pos))->Some_0;
        assert(records_from(l2, pos) == Some(seq![(key_at(log, pos), value_at(log, pos))]
            + rest.push((key, value))));
        assert(seq![(key_at(log, pos), value_at(log, pos))] + rest.push((key, value)) =~= (
        seq![(key_at(log, pos), value_at(log, pos))] + rest).push((key, value)));
    }
}

/// The store: the backing log and the index over it.
pub struct AKVMEM {
    pub log: Vec<u8>,
    pub index: Vec<(Vec<u8>, usize)>,
}

impl View for AKVMEM {
    type V = Map<Seq<u8>, Seq<u8>>;

    /// The abstract contents: each indexed key maps to the value bytes of
    /// the record its index entry points at.
    open spec fn view(&self) -> Map<Seq<u8>, Seq<u8>> {
        Map::new(
            |k: Seq<u8>| assoc_map(self.index@).contains_key(k),
            |k: Seq<u8>| value_at(self.log@, assoc_map(self.index@)[k]),
        )
    }
}

impl AKVMEM {
    /// The index as a map from key bytes to offsets.
    pub open spec fn index_map(self) -> Map<Seq<u8>, int> {
        assoc_map(self.index@)
    }

    /// The contents restricted to keys whose live value is non-empty: what a
    /// replay of the log yields, an empty value being a tombstone.
    pub open spec fn live_map(self) -> Map<Seq<u8>, Seq<u8>> {
        Map::new(
            |k: Seq<u8>| self@.contains_key(k) && self@[k].len() > 0,
            |k: Seq<u8>| self@[k],
        )
    }

    /// Well-formedness: index keys are distinct; every index entry points at
    /// a valid record that holds its key; every byte of the log belongs to a
    /// valid record; and replaying the log yields the live contents.
    pub open spec fn wf(self) -> bool {
        &&& distinct_keys(self.index@)
        &&& (forall|k: Seq<u8>| #[trigger]
            self.index_map().contains_key(k) ==> valid_record_at(self.log@, self.index_map()[k])
                && key_at(self.log@, self.index_map()[k]) == k)
        &&& records_from(self.log@, 0) is Some
        &&& map_of(records_from(self.log@, 0)->Some_0) == self.live_map()
    }
}

/// A store whose index maps `key` to a record just appended with value
/// `value`, the rest of the index unchanged, is well formed again, and its
/// contents gain `key -> value`.
proof fn lemma_wf_after_insert(pre: AKVMEM, post: AKVMEM, key: Seq<u8>, value: Seq<u8>)
    requires
        pre.wf(),
        key.len() + value.len() <= u32::MAX,
        post.log@ == pre.log@ + record_bytes(key, value),
        distinct_keys(post.index@),
        post.index_map() == pre.index_map().insert(key, pre.log@.len() as int),
    ensures
        post.wf(),
        post@ == pre@.insert(key, value),
{
    let pos = pre.log@.len() as int;
    let ext = record_bytes(key, value);
    lemma_record_at_append(pre.log@, key, value);
    assert forall|k: Seq<u8>| #[trigger] post.index_map().contains_key(k) implies valid_record_at(
        post.log@,
        post.index_map()[k],
    ) && key_at(post.log@, post.index_map()[k]) == k by {
        if k == key {
        } else {
            assert(pre.index_map().contains_key(k));
            lemma_record_local(pre.log@, ext, pre.index_map()[k]);
        }
    }
    assert forall|k: Seq<u8>| true implies (post@.contains_key(k) <==> pre@.insert(
        key,
        value,
    ).contains_key(k)) && (post@.contains_key(k) ==> post@[k] == pre@.insert(key, value)[k]) by {
        if k == key {
            assert(post@[k] == value_at(post.log@, pos));
        } else {
            if pre.index_map().contains_key(k) {
                lemma_record_local(pre.log@, ext, pre.index_map()[k]);
            }
        }
    }
    assert(post@ =~= pre@.insert(key, value));
    lemma_records_append(pre.log@, 0, key, value);
    lemma_map_of_push(records_from(pre.log@, 0)->Some_0, key, value);
    if value.len() > 0 {
        assert(post.live_map() =~= pre.live_map().insert(key, value));
    } else {
        assert(post.live_map() =~= pre.live_map().remove(key));
    }
}

/// A store whose index dropped `key` and whose log gained a tombstone for it
/// is well formed again, and its contents lose `key`.
proof fn lemma_wf_after_delete(pre: AKVMEM, post: AKVMEM, key: Seq<u8>)
    requires
        pre.wf(),
        key.len() <= u32::MAX,
        post.log@ == pre.log@ + record_bytes(key, Seq::empty()),
        distinct_keys(post.index@),
        post.index_map() == pre.index_map().remove(key),
    ensures
        post.wf(),
        post@ == pre@.remove(key),
{
    let ext = record_bytes(key, Seq::<u8>::empty());
    assert forall|k: Seq<u8>| #[trigger] post.index_map().contains_key(k) implies valid_record_at(
        post.log@,
        post.index_map()[k],
    ) && key_at(post.log@, post.index_map()[k]) == k by {
        assert(pre.index_map().contains_key(k));
        lemma_record_local(pre.log@, ext, pre.index_map()[k]);
    }
    assert forall|k: Seq<u8>| true implies (post@.contains_key(k) <==> pre@.remove(
        key,
    ).contains_key(k)) && (post@.contains_key(k) ==> post@[k] == pre@.remove(key)[k]) by {
        if k != key && pre.index_map().contains_key(k) {
            lemma_record_local(pre.log@, ext, pre.index_map()[k]);
        }
    }
    assert(post@ =~= pre@.remove(key));
    lemma_records_append(pre.log@, 0, key, Seq::empty());
    lemma_map_of_push(records_from(pre.log@, 0)->Some_0, key, Seq::empty());
    assert(post.live_map() =~= pre.live_map().remove(key));
}

/// Open an empty store: no log bytes, no index entries.
pub fn open() -> (r: AKVMEM)
    ensures
        r.wf(),
        r@ == Map::<Seq<u8>, Seq<u8>>::empty(),
        r.log@ == Seq::<u8>::empty(),
{
    let r = AKVMEM { log: Vec::new(), index: Vec::new() };
    proof {
        assert(r@ =~= Map::<Seq<u8>, Seq<u8>>::empty());
        assert(records_from(r.log@, 0) == Some(Seq::<(Seq<u8>, Seq<u8>)>::empty()));
        assert(map_of(Seq::<(Seq<u8>, Seq<u8>)>::empty()) =~= r.live_map());
    }
    r
}

impl AKVMEM {
    /// The position at which the next record will be appended.
    pub fn seek_to_end(&mut self) -> (r: usize)
        ensures
            r == final(self).log@.len(),
            *final(self) == *old(self),
    {
        self.log.len()
    }

    /// Append one record for `(key, value)` without touching the index,
    /// returning the offset at which the record starts.
    pub fn insert_ignoring_index(&mut self, key: &Vec<u8>, value: &Vec<u8>) -> (r: Result<
        usize,
        StoreError,
    >)
        requires
            key@.len() + value@.len() <= u32::MAX,
            old(self).log@.len() + 12 + key@.len() + value@.len() <= usize::MAX,
        ensures
            r is Ok,
            r->Ok_0 == old(self).log@.len(),
            final(self).log@ == old(self).log@ + record_bytes(key@, value@),
            final(self).index == old(self).index,
    {
        let current_position = self.log.len();
        let rec = encode_record(key, value);
        self.log.extend_from_slice(rec.as_slice());
        Ok(current_position)
    }

    /// Append a record for `(key, value)` and point the index at it.
    pub fn insert(&mut self, key: &Vec<u8>, value: &Vec<u8>) -> (r: Result<(), StoreError>)
        requires
            old(self).wf(),
            key@.len() > 0,
            key@.len() + value@.len() <= u32::MAX,
            old(self).log@.len() + 12 + key@.len() + value@.len() <= usize::MAX,
        ensures
            r is Ok,
            final(self).wf(),
            final(self)@ == old(self)@.insert(key@, value@),
            final(self).log@ == old(self).log@ + record_bytes(key@, value@),
    {
        let current_position = match self.insert_ignoring_index(key, value) {
            Ok(p) => p,
            Err(e) => {
                return Err(e);
            },
        };
        index_insert(&mut self.index, key, current_position);
        proof {
            lemma_wf_after_insert(*old(self), *self, key@, value@);
        }
        Ok(())
    }

    /// Semantically identical to `insert`; a named alias.
    pub fn update(&mut self, key: &Vec<u8>, value: &Vec<u8>) -> (r: Result<(), StoreError>)
        requires
            old(self).wf(),
            key@.len() > 0,
            key@.len() + value@.len() <= u32::MAX,
            old(self).log@.len() + 12 + key@.len() + value@.len() <= usize::MAX,
        ensures
            r is Ok,
            final(self).wf(),
            final(self)@ == old(self)@.insert(key@, value@),
            final(self).log@ == old(self).log@ + record_bytes(key@, value@),
    {
        self.insert(key, value)
    }

    /// Remove `key` from the index and append a tombstone record for it.
    /// Deleting a missing key is not an error.
    pub fn delete(&mut self, key: &Vec<u8>) -> (r: Result<(), StoreError>)
        requires
            old(self).wf(),
            key@.len() > 0,
            key@.len() <= u32::MAX,
            old(self).log@.len() + 12 + key@.len() <= usize::MAX,
        ensures
            r is Ok,
            final(self).wf(),
            final(self)@ == old(self)@.remove(key@),
            final(self).log@ == old(self).log@ + record_bytes(key@, Seq::empty()),
    {
        index_remove(&mut self.index, key);
        let empty: Vec<u8> = Vec::new();
        let r = self.insert_ignoring_index(key, &empty);
        match r {
            Ok(_) => {
                proof {
                    lemma_wf_after_delete(*old(self), *self, key@);
                }
                Ok(())
            },
            Err(e) => Err(e),
        }
    }

    /// Decode the record at `position`, wherever it points.
    pub fn get_at(&self, position: usize) -> (r: Result<KeyValuePair, StoreError>)
        ensures
            r is Ok <==> valid_record_at(self.log@, position as int),
            r is Ok ==> r->Ok_0.key@ == key_at(self.log@, position as int) && r->Ok_0.value@
                == value_at(self.log@, position as int),
    {
        match process_record(&self.log, position) {
            Ok((kv, _)) => Ok(kv),
            Err(e) => Err(e),
        }
    }

    /// Look `key` up in the index and read its live value from the log.
    /// A missing key is an absent result, not an error; under
    /// well-formedness the read cannot fail.
    pub fn get(&self, key: &Vec<u8>) -> (r: Result<Option<Vec<u8>>, StoreError>)
        requires
            self.wf(),
        ensures
            r is Ok,
            match r->Ok_0 {
                Some(v) => self@.contains_key(key@) && v@ == self@[key@],
                None => !self@.contains_key(key@),
            },
    {
        match index_get(&self.index, key) {
            None => Ok(None),
            Some(position) => {
                match self.get_at(position) {
                    Ok(kv) => Ok(Some(kv.value)),
                    Err(e) => {
                        proof {
                            assert(valid_record_at(self.log@, self.index_map()[key@]));
                            assert(false);
                        }
                        Err(e)
                    },
                }
            },
        }
    }

    /// The first record at or after `pos` whose value equals `target` and
    /// whose offset some index entry holds, scanning record by record.
    pub open spec fn find_from(self, pos: int, target: Seq<u8>) -> Option<(int, Seq<u8>)>
        decreases self.log@.len() - pos,
        when 0 <= pos <= self.log@.len()
    {
        if pos == self.log@.len() {
            None
        } else if !valid_record_at(self.log@, pos) {
            None
        } else if value_at(self.log@, pos) == target && (exists|i: int|
            0 <= i < self.index@.len() && self.index@[i].1 as int == pos) {
            Some((pos, value_at(self.log@, pos)))
        } else {
            self.find_from(record_end(self.log@, pos), target)
        }
    }

    /// Scan the log from the start for the first live record whose value
    /// equals `target`.
    pub fn find(&self, target: &Vec<u8>) -> (r: Result<Option<(usize, Vec<u8>)>, StoreError>)
        requires
            self.wf(),
        ensures
            r is Ok,
            match r->Ok_0 {
                Some((off, v)) => self.find_from(0, target@) == Some((off as int, v@)),
                None => self.find_from(0, target@) is None,
            },
    {
        let mut pos: usize = 0;
        loop
            invariant
                self.wf(),
                0 <= pos <= self.log@.len(),
                records_from(self.log@, pos as int) is Some,
                self.find_from(0, target@) == self.find_from(pos as int, target@),
            decreases self.log@.len() - pos,
        {
            match process_record(&self.log, pos) {
                Ok((kv, end)) => {
                    if bytes_eq(&kv.value, target) {
                        if offset_in_index(&self.index, pos) {
                            return Ok(Some((pos, kv.value)));
                        }
                    }
                    pos = end;
                },
                Err(e) => {
                    if pos >= self.log.len() {
                        return Ok(None);
                    } else {
                        proof {
                            assert(valid_record_at(self.log@, pos as int));
                            assert(false);
                        }
                        return Err(StoreError::NotFound);
                    }
                },
            }
        }
    }
}

/// The error a replay of the log reports: walking record by record from
/// `pos`, a record cut short by the end of the log is a truncation, and a
/// complete record whose stored checksum disagrees with its payload is
/// corruption.
pub open spec fn load_fault(log: Seq<u8>, pos: int) -> StoreError
    decreases log.len() - pos,
    when 0 <= pos <= log.len()
{
    if pos == log.len() {
        StoreError::UnexpectedEof
    } else if !record_complete(log, pos) {
        StoreError::TruncatedRecord
    } else if stored_checksum(log, pos) != crate::record::crc32_of(payload_at(log, pos)) {
        StoreError::Corruption
    } else {
        load_fault(log, record_end(log, pos))
    }
}

/// Rebuild a store from the bytes of its log, replaying every record from
/// the start: a record with a non-empty value points the index at itself, a
/// tombstone removes its key. Succeeds exactly when every byte of the log
/// belongs to a valid record; otherwise the first bad record decides the
/// error.
pub fn load(log: Vec<u8>) -> (r: Result<AKVMEM, StoreError>)
    ensures
        r is Ok <==> records_from(log@, 0) is Some,
        r is Ok ==> {
            let s = r->Ok_0;
            &&& s.wf()
            &&& s.log@ == log@
            &&& s@ == map_of(records_from(log@, 0)->Some_0)
        },
        r is Err ==> r->Err_0 == load_fault(log@, 0),
{
    let mut index: Vec<(Vec<u8>, usize)> = Vec::new();
    let mut pos: usize = 0;
    let ghost mut done: Seq<(Seq<u8>, Seq<u8>)> = Seq::empty();
    loop
        invariant
            0 <= pos <= log@.len(),
            distinct_keys(index@),
            forall|k: Seq<u8>| #[trigger]
                assoc_map(index@).contains_key(k) ==> valid_record_at(
                    log@,
                    assoc_map(index@)[k],
                ) && key_at(log@, assoc_map(index@)[k]) == k,
            records_from(log@, 0) is Some <==> records_from(log@, pos as int) is Some,
            load_fault(log@, 0) == load_fault(log@, pos as int),
            records_from(log@, pos as int) is Some ==> records_from(log@, 0)->Some_0 == done
                + records_from(log@, pos as int)->Some_0,
            map_of(done) == Map::new(
                |k: Seq<u8>| assoc_map(index@).contains_key(k),
                |k: Seq<u8>| value_at(log@, assoc_map(index@)[k]),
            ),
            forall|k: Seq<u8>| #[trigger]
                assoc_map(index@).contains_key(k) ==> value_at(log@, assoc_map(index@)[k]).len()
                    > 0,
        decreases log@.len() - pos,
    {
        match process_record(&log, pos) {
            Ok((kv, end)) => {
                proof {
                    lemma_map_of_push(done, kv.key@, kv.value@);
                }
                if kv.value.len() > 0 {
                    index_insert(&mut index, &kv.key, pos);
                } else {
                    index_remove(&mut index, &kv.key);
                }
                proof {
                    let prev_done = done;
                    done = done.push((kv.key@, kv.value@));
                    assert(valid_record_at(log@, pos as int));
                    if records_from(log@, end as int) is Some {
                        let rest = records_from(log@, end as int)->Some_0;
                        assert(records_from(log@, pos as int) == Some(
                            seq![(key_at(log@, pos as int), value_at(log@, pos as int))] + rest,
                        ));
                        assert(prev_done + (seq![(kv.key@, kv.value@)] + rest) =~= done + rest);
                    } else {
                        assert(records_from(log@, pos as int) is None);
                    }
                    assert(map_of(done) =~= Map::new(
                        |k: Seq<u8>| assoc_map(index@).contains_key(k),
                        |k: Seq<u8>| value_at(log@, assoc_map(index@)[k]),
                    ));
                }
                pos = end;
            },
            Err(e) => {
                if pos >= log.len() {
                    let s = AKVMEM { log, index };
                    proof {
                        assert(records_from(s.log@, pos as int) == Some(
                            Seq::<(Seq<u8>, Seq<u8>)>::empty(),
                        ));
                        assert(done + Seq::<(Seq<u8>, Seq<u8>)>::empty() =~= done);
                        assert(s@ =~= map_of(records_from(s.log@, 0)->Some_0));
                        assert(s.live_map() =~= s@);
                    }
                    return Ok(s);
                } else {
                    proof {
                        assert(records_from(log@, pos as int) is None);
                        assert(e == StoreError::TruncatedRecord || e == StoreError::Corruption);
                    }
                    return Err(e);
                }
            },
        }
    }
}

/// Round-trip law: inserting `(k, v)` makes `k` live with value `v`, so a
/// following `get(k)` answers `Some(v)`.
pub proof fn lemma_insert_round_trip(pre: AKVMEM, post: AKVMEM, k: Seq<u8>, v: Seq<u8>)
    requires
        post@ == pre@.insert(k, v),
    ensures
        post@.contains_key(k),
        post@[k] == v,
{
}

/// Last-write-wins law: of two inserts for one key, the later one alone
/// decides the key's value, whatever was written before.
pub proof fn lemma_last_write_wins(m: Map<Seq<u8>, Seq<u8>>, k: Seq<u8>, v1: Seq<u8>, v2: Seq<u8>)
    ensures
        m.insert(k, v1).insert(k, v2) == m.insert(k, v2),
{
    assert(m.insert(k, v1).insert(k, v2) =~= m.insert(k, v2));
}

/// Delete law: after a delete the key is gone, so `get(k)` answers `None`;
/// a following insert restores it.
pub proof fn lemma_delete_then_insert(m: Map<Seq<u8>, Seq<u8>>, k: Seq<u8>, v: Seq<u8>)
    ensures
        !m.remove(k).contains_key(k),
        m.remove(k).insert(k, v).contains_key(k),
        m.remove(k).insert(k, v)[k] == v,
{
}

/// Record-integrity law: every offset the index holds points at a complete
/// record whose stored checksum equals the checksum of its payload, and
/// whose key is the index key.
pub proof fn lemma_record_integrity(s: AKVMEM)
    requires
        s.wf(),
    ensures
        forall|k: Seq<u8>| #[trigger]
            s.index_map().contains_key(k) ==> valid_record_at(s.log@, s.index_map()[k]) && key_at(
                s.log@,
                s.index_map()[k],
            ) == k,
{
}

/// Persistence law: replaying a well-formed store's log yields its live
/// contents, so a store reopened with `load` answers `get` as the closed
/// store did on every key — except one whose live value is empty, which has
/// the shape of a tombstone and reads back as absent.
pub proof fn lemma_persistence(s: AKVMEM)
    requires
        s.wf(),
    ensures
        records_from(s.log@, 0) is Some,
        forall|k: Seq<u8>|
            s@.contains_key(k) && s@[k].len() > 0 ==> #[trigger] map_of(
                records_from(s.log@, 0)->Some_0,
            ).contains_key(k) && map_of(records_from(s.log@, 0)->Some_0)[k] == s@[k],
        forall|k: Seq<u8>|
            !(s@.contains_key(k) && s@[k].len() > 0) ==> !#[trigger] map_of(
                records_from(s.log@, 0)->Some_0,
            ).contains_key(k),
{
}

} // verus!
