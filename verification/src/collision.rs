use vstd::prelude::*;

use crate::error::Error;
use crate::scanner::LogIterator;
use crate::transaction::Operation;

verus! {

use crate::codec::{
    LogEntry, ENTRY_STATIC_SIZE, TOMBSTONE, key_at, key_len_at, value_at, record_end,
    encoded_insert, encoded_tombstone,
};
use crate::index::{
    IndexEntry, entry_tracks, entry_ok, index_sorted, index_has_key, index_mem, index_wf,
    index_find, index_upsert, index_remove_at, lemma_sorted_distinct,
};
use crate::order::key_eq;
use crate::replay::{
    replay, replay_from, parses, live, slots, slots_from, lemma_record_prefix,
    lemma_replay_append_insert, lemma_replay_append_tombstone, lemma_replay_empty,
    lemma_live_slots_same_keys,
};

/// All the data for one hash prefix whose primary table overflowed: an
/// append-only record log together with an in-memory index that maps each
/// live key, in ascending byte order, to the position of its most recent
/// insert record. The index is rebuilt by replaying the log on open and is
/// kept exact by every mutation thereafter.
#[derive(Debug)]
pub struct Collision {
    pub index: Vec<(Vec<u8>, IndexEntry)>,
    pub prefix: u32,
    pub log: Vec<u8>,
}

/// An index entry that is consistent with the log stays consistent when
/// bytes are appended, as long as its key's binding and record location do
/// not change.
proof fn lemma_entry_ok_extend(log: Seq<u8>, ext: Seq<u8>, k: Seq<u8>, e: IndexEntry)
    requires
        entry_ok(log, k, e),
        parses(log + ext),
        live(log + ext).contains_key(k),
        live(log + ext)[k] == live(log)[k],
        slots(log + ext).contains_key(k),
        slots(log + ext)[k] == slots(log)[k],
    ensures
        entry_ok(log + ext, k, e),
{
    lemma_record_prefix(log, ext, e.position as int);
}

impl Collision {
    /// The log is a whole number of records and the index is exactly its
    /// live state, in ascending key order.
    pub open spec fn wf(self) -> bool {
        &&& parses(self.log@)
        &&& index_wf(self.log@, self.index@)
    }

    /// The live key-value bindings of this log.
    pub open spec fn live_map(self) -> Map<Seq<u8>, Seq<u8>> {
        live(self.log@)
    }

    /// Replays log bytes start to end into a fresh index: an insert record
    /// binds its key to its position, a tombstone unbinds it. The result is
    /// the state of a complete ordered replay of every mutation.
    pub fn build_index(log: &Vec<u8>) -> (r: Result<Vec<(Vec<u8>, IndexEntry)>, Error>)
        ensures
            r is Ok <==> parses(log@),
            r matches Ok(v) ==> index_wf(log@, v@),
            r is Err ==> r == Err::<Vec<(Vec<u8>, IndexEntry)>, Error>(Error::UnexpectedEof),
    {
        let mut it = LogIterator::new(log);
        let mut index: Vec<(Vec<u8>, IndexEntry)> = Vec::new();
        let ghost mut m: Map<Seq<u8>, Seq<u8>> = Map::empty();
        let ghost mut pm: Map<Seq<u8>, (int, int)> = Map::empty();
        while it.position < log.len() as u64
            invariant
                it.log == log,
                it.wf(),
                replay_from(log@, it.position_spec(), m) == replay(log@),
                slots_from(log@, it.position_spec(), pm) == slots(log@),
                index_sorted(index@),
                forall|i: int|
                    0 <= i < index@.len() ==> entry_tracks(
                        log@,
                        m,
                        pm,
                        (#[trigger] index@[i]).0@,
                        index@[i].1,
                    ),
                forall|k: Seq<u8>| #[trigger] m.contains_key(k) ==> index_has_key(index@, k),
            decreases log@.len() - it.position_spec(),
        {
            let ghost p = it.position_spec();
            let ghost m0 = m;
            let ghost pm0 = pm;
            let ghost index0 = index@;
            let res = it.next();
            match res {
                None => {
                    proof {
                        assert(false);
                    }
                    return Err(Error::UnexpectedEof);
                },
                Some(Err(err)) => {
                    return Err(err);
                },
                Some(Ok(e)) => {
                    match e.value {
                        Some(v) => {
                            proof {
                                assert(e.key@.len() == key_at(log@, p).len());
                                assert(v@.len() == value_at(log@, p).len());
                                assert(record_end(log@, p) <= log@.len());
                            }
                            let size: usize = 8 + e.key.len() + v.len();
                            let entry = IndexEntry { position: e.position, size };
                            proof {
                                m = m.insert(e.key@, v@);
                                pm = pm.insert(e.key@, (p, record_end(log@, p) - p));
                            }
                            index_upsert(&mut index, e.key.as_slice(), entry);
                            proof {
                                assert(entry_tracks(log@, m, pm, e.key@, entry));
                                assert forall|i: int|
                                    0 <= i < index@.len() implies entry_tracks(
                                    log@,
                                    m,
                                    pm,
                                    (#[trigger] index@[i]).0@,
                                    index@[i].1,
                                ) by {
                                    if index@[i].0@ == e.key@ {
                                        assert(index@[i].1 == entry);
                                    } else {
                                        let t = choose|t: int|
                                            0 <= t < index0.len() && index0[t] == index@[i];
                                        assert(entry_tracks(
                                            log@,
                                            m0,
                                            pm0,
                                            index0[t].0@,
                                            index0[t].1,
                                        ));
                                    }
                                }
                            }
                        },
                        None => {
                            proof {
                                m = m.remove(e.key@);
                                pm = pm.remove(e.key@);
                            }
                            match index_find(&index, e.key.as_slice()) {
                                Some(i) => {
                                    proof {
                                        assert forall|t: int|
                                            0 <= t < index@.len() && t != i implies index@[t].0@
                                            != e.key@ by {
                                            lemma_sorted_distinct(index@, t, i as int);
                                        }
                                    }
                                    index_remove_at(&mut index, i);
                                },
                                None => {},
                            }
                            proof {
                                assert forall|t: int|
                                    0 <= t < index@.len() implies entry_tracks(
                                    log@,
                                    m,
                                    pm,
                                    (#[trigger] index@[t]).0@,
                                    index@[t].1,
                                ) by {
                                    assert(index@[t].0@ != e.key@);
                                    let s = choose|s: int|
                                        0 <= s < index0.len() && index0[s] == index@[t];
                                    assert(entry_tracks(log@, m0, pm0, index0[s].0@, index0[s].1));
                                }
                                assert forall|k: Seq<u8>|
                                    #[trigger] m.contains_key(k) implies index_has_key(
                                    index@,
                                    k,
                                ) by {
                                    assert(m0.contains_key(k) && k != e.key@);
                                }
                            }
                        },
                    }
                },
            }
        }
        proof {
            assert(it.position_spec() == log@.len());
            assert(replay(log@) == Some(m));
            assert(live(log@) == m);
            assert(slots(log@) == pm);
        }
        Ok(index)
    }

    /// Creates the collision log for a prefix that had none: an empty log
    /// and an empty index. The surrounding environment supplies the fresh
    /// append-only file; it must not already exist.
    pub fn create(prefix: u32) -> (c: Collision)
        ensures
            c.wf(),
            c.prefix == prefix,
            c.log@ == Seq::<u8>::empty(),
            c.live_map() == Map::<Seq<u8>, Seq<u8>>::empty(),
            slots(c.log@) == Map::<Seq<u8>, (int, int)>::empty(),
    {
        proof {
            lemma_replay_empty();
        }
        Collision { index: Vec::new(), prefix, log: Vec::new() }
    }

    /// Opens a collision log from the bytes of its file, or reports that no
    /// file exists for this prefix (`None` input, `None` outcome: a valid
    /// state, not an error). The index is rebuilt by a full replay before
    /// the log is usable; bytes that end inside a record are a hard error.
    /// A log admits exactly one well-formed index
    /// (`crate::index::lemma_index_determined`), so the rebuilt index
    /// equals the one maintained incrementally before the bytes were
    /// written out.
    pub fn open(bytes: Option<Vec<u8>>, prefix: u32) -> (r: Result<Option<Collision>, Error>)
        ensures
            bytes is None <==> r == Ok::<Option<Collision>, Error>(None),
            bytes matches Some(b) ==> {
                &&& parses(b@) ==> (r matches Ok(Some(c)) && c.wf() && c.log@ == b@
                    && c.prefix == prefix)
                &&& !parses(b@) ==> r == Err::<Option<Collision>, Error>(Error::UnexpectedEof)
            },
    {
        match bytes {
            None => Ok(None),
            Some(b) => {
                match Collision::build_index(&b) {
                    Ok(index) => Ok(Some(Collision { index, prefix, log: b })),
                    Err(err) => Err(err),
                }
            },
        }
    }

    /// Appends an insert record and points the index at it, overwriting any
    /// prior binding of the key. The append is the durability boundary.
    pub fn insert(&mut self, key: &[u8], value: &[u8]) -> (r: Result<(), Error>)
        requires
            old(self).wf(),
            key@.len() <= u32::MAX,
            value@.len() < TOMBSTONE,
            old(self).log@.len() + ENTRY_STATIC_SIZE + key@.len() + value@.len() <= usize::MAX,
        ensures
            r is Ok,
            final(self).wf(),
            final(self).prefix == old(self).prefix,
            final(self).log@ == old(self).log@ + encoded_insert(key@, value@),
            final(self).log@.len() == old(self).log@.len() + ENTRY_STATIC_SIZE + key@.len()
                + value@.len(),
            final(self).live_map() == old(self).live_map().insert(key@, value@),
            slots(final(self).log@) == slots(old(self).log@).insert(
                key@,
                (
                    old(self).log@.len() as int,
                    (ENTRY_STATIC_SIZE + key@.len() + value@.len()) as int,
                ),
            ),
            forall|i: int|
                0 <= i < final(self).index@.len() && (#[trigger] final(self).index@[i]).0@ == key@
                    ==> final(self).index@[i].1.position == old(self).log@.len()
                    && final(self).index@[i].1.size == ENTRY_STATIC_SIZE + key@.len()
                    + value@.len(),
            forall|i: int|
                0 <= i < final(self).index@.len() && (#[trigger] final(self).index@[i]).0@ != key@
                    ==> index_mem(old(self).index@, final(self).index@[i]),
    {
        let ghost log0 = self.log@;
        let ghost index0 = self.index@;
        let position: u64 = LogEntry::write(&mut self.log, key, value);
        let size: usize = LogEntry::len(key, value);
        proof {
            lemma_replay_append_insert(log0, key@, value@);
        }
        let entry = IndexEntry { position, size };
        index_upsert(&mut self.index, key, entry);
        proof {
            let log1 = self.log@;
            assert(entry_ok(log1, key@, entry));
            assert forall|i: int|
                0 <= i < self.index@.len() implies entry_ok(
                log1,
                (#[trigger] self.index@[i]).0@,
                self.index@[i].1,
            ) by {
                if self.index@[i].0@ == key@ {
                    assert(self.index@[i].1 == entry);
                } else {
                    let t = choose|t: int| 0 <= t < index0.len() && index0[t] == self.index@[i];
                    assert(entry_ok(log0, index0[t].0@, index0[t].1));
                    lemma_entry_ok_extend(
                        log0,
                        encoded_insert(key@, value@),
                        index0[t].0@,
                        index0[t].1,
                    );
                }
            }
            assert forall|k: Seq<u8>| #[trigger] live(log1).contains_key(k) implies index_has_key(
                self.index@,
                k,
            ) by {
                if k != key@ {
                    assert(live(log0).contains_key(k));
                    assert(index_has_key(index0, k));
                }
            }
        }
        Ok(())
    }

    /// Unbinds a key. When the key is live this appends one tombstone
    /// record and drops the key from the index; when it is not, nothing is
    /// written at all — the index is authoritative for liveness, so an
    /// unknown key needs no deletion record.
    pub fn delete(&mut self, key: &[u8]) -> (r: Result<(), Error>)
        requires
            old(self).wf(),
            old(self).live_map().contains_key(key@) ==> old(self).log@.len() + ENTRY_STATIC_SIZE
                + key@.len() <= usize::MAX,
        ensures
            r is Ok,
            final(self).wf(),
            final(self).prefix == old(self).prefix,
            old(self).live_map().contains_key(key@) ==> final(self).log@ == old(self).log@
                + encoded_tombstone(key@),
            !old(self).live_map().contains_key(key@) ==> *final(self) == *old(self),
            final(self).log@.len() <= old(self).log@.len() + ENTRY_STATIC_SIZE + key@.len(),
            final(self).live_map() == old(self).live_map().remove(key@),
            slots(final(self).log@) == slots(old(self).log@).remove(key@),
            old(self).live_map().contains_key(key@) ==> exists|i: int|
                0 <= i < old(self).index@.len() && (#[trigger] old(self).index@[i]).0@ == key@
                    && final(self).index@ == old(self).index@.remove(i),
    {
        let ghost log0 = self.log@;
        let ghost index0 = self.index@;
        match index_find(&self.index, key) {
            Some(i) => {
                proof {
                    assert(entry_ok(log0, index0[i as int].0@, index0[i as int].1));
                    assert(live(log0).contains_key(key@));
                    let pos = index0[i as int].1.position as int;
                    assert(key_at(log0, pos) == key@);
                    assert(key@.len() == key_len_at(log0, pos));
                    assert(key@.len() <= u32::MAX);
                    assert forall|t: int|
                        0 <= t < index0.len() && t != i implies index0[t].0@ != key@ by {
                        lemma_sorted_distinct(index0, t, i as int);
                    }
                }
                index_remove_at(&mut self.index, i);
                proof {
                    assert(0 <= i < index0.len() && index0[i as int].0@ == key@ && self.index@
                        == index0.remove(i as int));
                }
                LogEntry::write_deleted(&mut self.log, key);
                proof {
                    lemma_replay_append_tombstone(log0, key@);
                    let log1 = self.log@;
                    assert forall|t: int|
                        0 <= t < self.index@.len() implies entry_ok(
                        log1,
                        (#[trigger] self.index@[t]).0@,
                        self.index@[t].1,
                    ) by {
                        let s = choose|s: int| 0 <= s < index0.len() && index0[s] == self.index@[t];
                        assert(entry_ok(log0, index0[s].0@, index0[s].1));
                        assert(index0[s].0@ != key@);
                        lemma_entry_ok_extend(
                            log0,
                            encoded_tombstone(key@),
                            index0[s].0@,
                            index0[s].1,
                        );
                    }
                    assert forall|k: Seq<u8>|
                        #[trigger] live(log1).contains_key(k) implies index_has_key(
                        self.index@,
                        k,
                    ) by {
                        assert(live(log0).contains_key(k) && k != key@);
                    }
                }
            },
            None => {
                proof {
                    assert(!live(log0).contains_key(key@));
                    assert(live(log0).remove(key@) =~= live(log0));
                    lemma_live_slots_same_keys(log0);
                    assert(!slots(log0).contains_key(key@));
                    assert(slots(log0).remove(key@) =~= slots(log0));
                }
            },
        }
        Ok(())
    }

    /// Looks the key up in the index; on a hit, decodes the one record at
    /// the stored position and checks that it holds this very key and is no
    /// tombstone. On a well-formed log that check cannot fail and the call
    /// returns `Ok`; on an index that disagrees with the log, it fails
    /// loudly with the distinct `CorruptIndex` error — a fatal invariant
    /// violation, never an ordinary miss.
    pub fn get(&self, key: &[u8]) -> (r: Result<Option<Vec<u8>>, Error>)
        ensures
            self.wf() ==> r is Ok,
            self.wf() ==> (r matches Ok(o) ==> (o is Some <==> self.live_map().contains_key(
                key@,
            ))),
            self.wf() ==> (r matches Ok(Some(v)) ==> v@ == self.live_map()[key@]),
            r is Err ==> r == Err::<Option<Vec<u8>>, Error>(Error::CorruptIndex),
    {
        match index_find(&self.index, key) {
            None => Ok(None),
            Some(i) => {
                let entry = self.index[i].1;
                proof {
                    if self.wf() {
                        assert(entry_ok(self.log@, self.index@[i as int].0@, entry));
                    }
                }
                if entry.position > self.log.len() as u64 {
                    return Err(Error::CorruptIndex);
                }
                match LogEntry::read(&self.log, entry.position) {
                    Err(_) => Err(Error::CorruptIndex),
                    Ok(e) => {
                        if !key_eq(e.key.as_slice(), key) {
                            return Err(Error::CorruptIndex);
                        }
                        match e.value {
                            None => Err(Error::CorruptIndex),
                            Some(v) => Ok(Some(v)),
                        }
                    },
                }
            },
        }
    }

    /// Dispatches an externally supplied operation to `insert` or `delete`.
    pub fn apply(&mut self, op: Operation) -> (r: Result<(), Error>)
        requires
            old(self).wf(),
            (match op {
                Operation::Insert(k, v) => k@.len() <= u32::MAX && v@.len() < TOMBSTONE
                    && old(self).log@.len() + ENTRY_STATIC_SIZE + k@.len() + v@.len()
                    <= usize::MAX,
                Operation::Delete(k) => old(self).live_map().contains_key(k@) ==> old(
                    self,
                ).log@.len() + ENTRY_STATIC_SIZE + k@.len() <= usize::MAX,
            }),
        ensures
            r is Ok,
            final(self).wf(),
            final(self).prefix == old(self).prefix,
            (match op {
                Operation::Insert(k, v) => final(self).log@ == old(self).log@ + encoded_insert(
                    k@,
                    v@,
                ) && final(self).live_map() == old(self).live_map().insert(k@, v@),
                Operation::Delete(k) => {
                    &&& old(self).live_map().contains_key(k@) ==> final(self).log@ == old(
                        self,
                    ).log@ + encoded_tombstone(k@)
                    &&& !old(self).live_map().contains_key(k@) ==> *final(self) == *old(self)
                    &&& final(self).live_map() == old(self).live_map().remove(k@)
                },
            }),
    {
        match op {
            Operation::Delete(key) => self.delete(key.as_slice()),
            Operation::Insert(key, value) => self.insert(key.as_slice(), value.as_slice()),
        }
    }

    /// The numeric prefix this log answers for: every key stored in this
    /// file hashes to it.
    pub fn prefix(&self) -> (p: u32)
        ensures
            p == self.prefix,
    {
        self.prefix
    }

    /// Returns an iterator over all live key-value pairs, in ascending
    /// byte order of the keys.
    pub fn iter(&self) -> (it: CollisionLogIterator<'_>)
        requires
            self.wf(),
        ensures
            it.collision == self,
            it.at == 0,
            it.wf(),
    {
        CollisionLogIterator { collision: self, at: 0 }
    }
}

/// Walks the index in ascending key order, decoding one record per key at
/// its stored position: finite, forward-only, not restartable. Several
/// iterators may walk one log at once; each is read-only.
pub struct CollisionLogIterator<'a> {
    pub collision: &'a Collision,
    pub at: usize,
}

impl<'a> CollisionLogIterator<'a> {
    /// The underlying log is well-formed and the cursor is within bounds.
    pub open spec fn wf(self) -> bool {
        &&& self.collision.wf()
        &&& self.at <= self.collision.index@.len()
    }

    /// Yields the next live pair in ascending key order, or `None` when all
    /// live keys have been produced. Decoding a tombstone or a mismatched
    /// key at an indexed position would be a fatal index corruption.
    pub fn next(&mut self) -> (r: Option<Result<(Vec<u8>, Vec<u8>), Error>>)
        requires
            old(self).wf(),
        ensures
            final(self).wf(),
            final(self).collision == old(self).collision,
            ({
                let c = old(self).collision;
                let at = old(self).at as int;
                &&& (at >= c.index@.len() ==> r is None && final(self).at == old(self).at)
                &&& (at < c.index@.len() ==> {
                    &&& r matches Some(Ok((k, v)))
                    &&& k@ == c.index@[at].0@
                    &&& c.live_map().contains_key(k@)
                    &&& v@ == c.live_map()[k@]
                    &&& final(self).at == old(self).at + 1
                })
            }),
    {
        if self.at >= self.collision.index.len() {
            return None;
        }
        let i = self.at;
        let entry = self.collision.index[i].1;
        proof {
            assert(entry_ok(self.collision.log@, self.collision.index@[i as int].0@, entry));
        }
        self.at = i + 1;
        match LogEntry::read(&self.collision.log, entry.position) {
            Err(_) => Some(Err(Error::CorruptIndex)),
            Ok(e) => {
                match e.value {
                    None => Some(Err(Error::CorruptIndex)),
                    Some(v) => Some(Ok((e.key, v))),
                }
            },
        }
    }
}

} // verus!
