use vstd::prelude::*;

verus! {

use vstd::bytes::*;
use crate::codec::{record_at, is_tombstone_at, key_at, value_at, record_end, key_len_at, value_len_at, value_field_at, encoded_insert, encoded_tombstone, TOMBSTONE};

/// Folds the records of `b` from offset `p` to the end into `m`: an insert
/// binds its key, a tombstone unbinds it. `None` when the bytes end inside
/// a record rather than exactly at a boundary.
pub open spec fn replay_from(b: Seq<u8>, p: int, m: Map<Seq<u8>, Seq<u8>>) -> Option<
    Map<Seq<u8>, Seq<u8>>,
>
    decreases b.len() - p,
{
    if p == b.len() {
        Some(m)
    } else if !record_at(b, p) {
        None::<Map<Seq<u8>, Seq<u8>>>
    } else if is_tombstone_at(b, p) {
        replay_from(b, record_end(b, p), m.remove(key_at(b, p)))
    } else {
        replay_from(b, record_end(b, p), m.insert(key_at(b, p), value_at(b, p)))
    }
}

/// The state reconstructed by replaying all of `b` from an empty map.
pub open spec fn replay(b: Seq<u8>) -> Option<Map<Seq<u8>, Seq<u8>>> {
    replay_from(b, 0, Map::empty())
}

/// Whether `b` is a well-formed log: a whole number of records.
pub open spec fn parses(b: Seq<u8>) -> bool {
    replay(b) is Some
}

/// The live key-value bindings of a well-formed log: last record per key
/// wins, a tombstone unbinds.
pub open spec fn live(b: Seq<u8>) -> Map<Seq<u8>, Seq<u8>> {
    replay(b)->Some_0
}

/// Folds the records of `b` from offset `p` into the per-key location of
/// the most recent insert record: an insert binds its key to the pair
/// (start offset, serialized length) of that very record, a tombstone
/// unbinds its key. This is the location half of the replay fold; `live`
/// is the value half.
pub open spec fn slots_from(b: Seq<u8>, p: int, pm: Map<Seq<u8>, (int, int)>) -> Map<
    Seq<u8>,
    (int, int),
>
    decreases b.len() - p,
{
    if p == b.len() || !record_at(b, p) {
        pm
    } else if is_tombstone_at(b, p) {
        slots_from(b, record_end(b, p), pm.remove(key_at(b, p)))
    } else {
        slots_from(b, record_end(b, p), pm.insert(key_at(b, p), (p, record_end(b, p) - p)))
    }
}

/// The per-key record locations reconstructed by folding all of `b`.
pub open spec fn slots(b: Seq<u8>) -> Map<Seq<u8>, (int, int)> {
    slots_from(b, 0, Map::empty())
}

/// A record decodes the same from any extension of the bytes it lies in.
pub proof fn lemma_record_prefix(b: Seq<u8>, ext: Seq<u8>, p: int)
    requires
        record_at(b, p),
    ensures
        record_at(b + ext, p),
        key_len_at(b + ext, p) == key_len_at(b, p),
        key_at(b + ext, p) == key_at(b, p),
        value_len_at(b + ext, p) == value_len_at(b, p),
        is_tombstone_at(b + ext, p) == is_tombstone_at(b, p),
        !is_tombstone_at(b, p) ==> value_at(b + ext, p) == value_at(b, p),
        record_end(b + ext, p) == record_end(b, p),
{
    let b2 = b + ext;
    assert(b2.subrange(p, p + 4) =~= b.subrange(p, p + 4));
    assert(key_len_at(b2, p) == key_len_at(b, p));
    let vf = value_field_at(b, p);
    assert(b2.subrange(vf, vf + 4) =~= b.subrange(vf, vf + 4));
    assert(value_len_at(b2, p) == value_len_at(b, p));
    assert(key_at(b2, p) =~= key_at(b, p));
    if !is_tombstone_at(b, p) {
        assert(value_at(b2, p) =~= value_at(b, p));
    }
}

/// Replaying an extended log first consumes the old bytes exactly as the
/// old log did, then goes on from the boundary with the state so reached.
pub proof fn lemma_replay_extend(b: Seq<u8>, ext: Seq<u8>, p: int, m: Map<Seq<u8>, Seq<u8>>)
    requires
        0 <= p <= b.len(),
        replay_from(b, p, m) is Some,
    ensures
        replay_from(b + ext, p, m) == replay_from(b + ext, b.len() as int, replay_from(b, p, m)->Some_0),
    decreases b.len() - p,
{
    if p == b.len() {
    } else {
        assert(record_at(b, p));
        lemma_record_prefix(b, ext, p);
        let q = record_end(b, p);
        assert(4 <= key_len_at(b, p) + 4);
        if is_tombstone_at(b, p) {
            lemma_replay_extend(b, ext, q, m.remove(key_at(b, p)));
        } else {
            lemma_replay_extend(b, ext, q, m.insert(key_at(b, p), value_at(b, p)));
        }
    }
}

/// Folding locations over an extended log first consumes the old bytes
/// exactly as the old log did, then goes on from the boundary with the
/// locations so reached.
pub proof fn lemma_slots_extend(
    b: Seq<u8>,
    ext: Seq<u8>,
    p: int,
    pm: Map<Seq<u8>, (int, int)>,
    m: Map<Seq<u8>, Seq<u8>>,
)
    requires
        0 <= p <= b.len(),
        replay_from(b, p, m) is Some,
    ensures
        slots_from(b + ext, p, pm) == slots_from(b + ext, b.len() as int, slots_from(b, p, pm)),
    decreases b.len() - p,
{
    if p == b.len() {
    } else {
        assert(record_at(b, p));
        lemma_record_prefix(b, ext, p);
        let q = record_end(b, p);
        if is_tombstone_at(b, p) {
            lemma_slots_extend(b, ext, q, pm.remove(key_at(b, p)), m.remove(key_at(b, p)));
        } else {
            lemma_slots_extend(
                b,
                ext,
                q,
                pm.insert(key_at(b, p), (p, q - p)),
                m.insert(key_at(b, p), value_at(b, p)),
            );
        }
    }
}

/// Appending one insert record to a well-formed log keeps it well-formed
/// and binds exactly that key to that value.
pub proof fn lemma_replay_append_insert(b: Seq<u8>, key: Seq<u8>, value: Seq<u8>)
    requires
        parses(b),
        key.len() <= u32::MAX,
        value.len() < TOMBSTONE,
    ensures
        parses(b + encoded_insert(key, value)),
        live(b + encoded_insert(key, value)) == live(b).insert(key, value),
        record_at(b + encoded_insert(key, value), b.len() as int),
        !is_tombstone_at(b + encoded_insert(key, value), b.len() as int),
        key_at(b + encoded_insert(key, value), b.len() as int) == key,
        value_at(b + encoded_insert(key, value), b.len() as int) == value,
        record_end(b + encoded_insert(key, value), b.len() as int) == b.len()
            + encoded_insert(key, value).len(),
        encoded_insert(key, value).len() == 8 + key.len() + value.len(),
        slots(b + encoded_insert(key, value)) == slots(b).insert(
            key,
            (b.len() as int, encoded_insert(key, value).len() as int),
        ),
{
    lemma_auto_spec_u32_to_from_le_bytes();
    let enc = encoded_insert(key, value);
    let b2 = b + enc;
    let p = b.len() as int;
    assert(b2.subrange(p, p + 4) =~= spec_u32_to_le_bytes(key.len() as u32));
    assert(key_len_at(b2, p) == key.len());
    assert(key_at(b2, p) =~= key);
    let vf = value_field_at(b2, p);
    assert(vf == p + 4 + key.len());
    assert(b2.subrange(vf, vf + 4) =~= spec_u32_to_le_bytes(value.len() as u32));
    assert(value_len_at(b2, p) == value.len());
    assert(!is_tombstone_at(b2, p));
    assert(value_at(b2, p) =~= value);
    assert(record_end(b2, p) == b2.len());
    assert(record_at(b2, p));
    lemma_replay_extend(b, enc, 0, Map::empty());
    assert(replay_from(b2, p, live(b)) == replay_from(b2, b2.len() as int, live(b).insert(key, value)));
    lemma_slots_extend(b, enc, 0, Map::empty(), Map::empty());
    assert(slots_from(b2, p, slots(b)) == slots_from(
        b2,
        b2.len() as int,
        slots(b).insert(key, (p, b2.len() - p)),
    ));
}

/// Appending one tombstone record to a well-formed log keeps it well-formed
/// and unbinds exactly that key.
pub proof fn lemma_replay_append_tombstone(b: Seq<u8>, key: Seq<u8>)
    requires
        parses(b),
        key.len() <= u32::MAX,
    ensures
        parses(b + encoded_tombstone(key)),
        live(b + encoded_tombstone(key)) == live(b).remove(key),
        record_at(b + encoded_tombstone(key), b.len() as int),
        is_tombstone_at(b + encoded_tombstone(key), b.len() as int),
        key_at(b + encoded_tombstone(key), b.len() as int) == key,
        record_end(b + encoded_tombstone(key), b.len() as int) == b.len()
            + encoded_tombstone(key).len(),
        encoded_tombstone(key).len() == 8 + key.len(),
        slots(b + encoded_tombstone(key)) == slots(b).remove(key),
{
    lemma_auto_spec_u32_to_from_le_bytes();
    let enc = encoded_tombstone(key);
    let b2 = b + enc;
    let p = b.len() as int;
    assert(b2.subrange(p, p + 4) =~= spec_u32_to_le_bytes(key.len() as u32));
    assert(key_len_at(b2, p) == key.len());
    assert(key_at(b2, p) =~= key);
    let vf = value_field_at(b2, p);
    assert(vf == p + 4 + key.len());
    assert(b2.subrange(vf, vf + 4) =~= spec_u32_to_le_bytes(TOMBSTONE));
    assert(value_len_at(b2, p) == TOMBSTONE);
    assert(is_tombstone_at(b2, p));
    assert(record_end(b2, p) == b2.len());
    assert(record_at(b2, p));
    lemma_replay_extend(b, enc, 0, Map::empty());
    assert(replay_from(b2, p, live(b)) == replay_from(b2, b2.len() as int, live(b).remove(key)));
    lemma_slots_extend(b, enc, 0, Map::empty(), Map::empty());
    assert(slots_from(b2, p, slots(b)) == slots_from(b2, b2.len() as int, slots(b).remove(key)));
}

/// The value fold and the location fold walk the same records, so they
/// bind exactly the same keys.
proof fn lemma_live_slots_dom(
    b: Seq<u8>,
    p: int,
    m: Map<Seq<u8>, Seq<u8>>,
    pm: Map<Seq<u8>, (int, int)>,
)
    requires
        0 <= p <= b.len(),
        replay_from(b, p, m) is Some,
        m.dom() == pm.dom(),
    ensures
        (replay_from(b, p, m)->Some_0).dom() == slots_from(b, p, pm).dom(),
    decreases b.len() - p,
{
    if p == b.len() {
    } else {
        assert(record_at(b, p));
        let k = key_at(b, p);
        let q = record_end(b, p);
        if is_tombstone_at(b, p) {
            assert(m.remove(k).dom() =~= pm.remove(k).dom());
            lemma_live_slots_dom(b, q, m.remove(k), pm.remove(k));
        } else {
            assert(m.insert(k, value_at(b, p)).dom() =~= pm.insert(k, (p, q - p)).dom());
            lemma_live_slots_dom(b, q, m.insert(k, value_at(b, p)), pm.insert(k, (p, q - p)));
        }
    }
}

/// A well-formed log's live bindings and record locations cover exactly
/// the same keys.
pub proof fn lemma_live_slots_same_keys(b: Seq<u8>)
    requires
        parses(b),
    ensures
        live(b).dom() == slots(b).dom(),
{
    assert(Map::<Seq<u8>, Seq<u8>>::empty().dom() =~= Map::<Seq<u8>, (int, int)>::empty().dom());
    lemma_live_slots_dom(b, 0, Map::empty(), Map::empty());
}

/// The empty log is well-formed and holds nothing.
pub proof fn lemma_replay_empty()
    ensures
        parses(Seq::<u8>::empty()),
        live(Seq::<u8>::empty()) == Map::<Seq<u8>, Seq<u8>>::empty(),
        slots(Seq::<u8>::empty()) == Map::<Seq<u8>, (int, int)>::empty(),
{
}

} // verus!
