use vstd::prelude::*;

verus! {

use crate::codec::{encoded_insert, encoded_tombstone, TOMBSTONE};
use crate::collision::Collision;
use crate::index::index_has_key;
use crate::order::lex_lt;
use crate::replay::{parses, live, lemma_replay_append_insert, lemma_replay_append_tombstone};

/// Round trip: appending an insert record for a key to a well-formed log
/// leaves the log well-formed and binds the key to exactly that value, so a
/// lookup — in the same session or after the log is replayed on reopen —
/// returns it.
pub proof fn lemma_insert_get_round_trip(b: Seq<u8>, key: Seq<u8>, value: Seq<u8>)
    requires
        parses(b),
        key.len() <= u32::MAX,
        value.len() < TOMBSTONE,
    ensures
        parses(b + encoded_insert(key, value)),
        live(b + encoded_insert(key, value)).contains_key(key),
        live(b + encoded_insert(key, value))[key] == value,
{
    lemma_replay_append_insert(b, key, value);
}

/// Tombstone effect: an insert followed by a tombstone for the same key
/// leaves the key unbound — live, and after any replay of the log.
pub proof fn lemma_tombstone_effect(b: Seq<u8>, key: Seq<u8>, value: Seq<u8>)
    requires
        parses(b),
        key.len() <= u32::MAX,
        value.len() < TOMBSTONE,
    ensures
        parses(b + encoded_insert(key, value) + encoded_tombstone(key)),
        !live(b + encoded_insert(key, value) + encoded_tombstone(key)).contains_key(key),
{
    lemma_replay_append_insert(b, key, value);
    lemma_replay_append_tombstone(b + encoded_insert(key, value), key);
}

/// Last write wins: after two inserts of one key, only the second value is
/// visible, live and after any replay of the log.
pub proof fn lemma_last_write_wins(b: Seq<u8>, key: Seq<u8>, v1: Seq<u8>, v2: Seq<u8>)
    requires
        parses(b),
        key.len() <= u32::MAX,
        v1.len() < TOMBSTONE,
        v2.len() < TOMBSTONE,
    ensures
        parses(b + encoded_insert(key, v1) + encoded_insert(key, v2)),
        live(b + encoded_insert(key, v1) + encoded_insert(key, v2)) == live(
            b + encoded_insert(key, v2),
        ),
        live(b + encoded_insert(key, v1) + encoded_insert(key, v2))[key] == v2,
{
    lemma_replay_append_insert(b, key, v1);
    lemma_replay_append_insert(b + encoded_insert(key, v1), key, v2);
    lemma_replay_append_insert(b, key, v2);
    assert(live(b).insert(key, v1).insert(key, v2) =~= live(b).insert(key, v2));
}

/// Ordered iteration: the index of a well-formed log lists exactly the live
/// keys, each bound to its live value, in strictly ascending byte order —
/// whatever the physical write order of the log was.
pub proof fn lemma_iteration_ordered_and_complete(c: Collision)
    requires
        c.wf(),
    ensures
        forall|i: int, j: int|
            #![trigger c.index@[i], c.index@[j]]
            0 <= i < j < c.index@.len() ==> lex_lt(c.index@[i].0@, c.index@[j].0@),
        forall|i: int|
            0 <= i < c.index@.len() ==> c.live_map().contains_key((#[trigger] c.index@[i]).0@),
        forall|k: Seq<u8>| #[trigger] c.live_map().contains_key(k) ==> index_has_key(c.index@, k),
{
}

/// One operation, stated over bindings: an insert binds its key, a delete
/// unbinds it.
pub open spec fn apply_op(
    m: Map<Seq<u8>, Seq<u8>>,
    op: (Seq<u8>, Option<Seq<u8>>),
) -> Map<Seq<u8>, Seq<u8>> {
    match op.1 {
        Some(v) => m.insert(op.0, v),
        None => m.remove(op.0),
    }
}

/// The bindings a sequence of operations leaves in force, applied in order.
pub open spec fn fold_ops(
    m: Map<Seq<u8>, Seq<u8>>,
    ops: Seq<(Seq<u8>, Option<Seq<u8>>)>,
) -> Map<Seq<u8>, Seq<u8>>
    decreases ops.len(),
{
    if ops.len() == 0 {
        m
    } else {
        fold_ops(apply_op(m, ops[0]), ops.drop_first())
    }
}

/// The log bytes the operations append: an insert record for each insert,
/// a tombstone record for each delete.
pub open spec fn encode_ops(ops: Seq<(Seq<u8>, Option<Seq<u8>>)>) -> Seq<u8>
    decreases ops.len(),
{
    if ops.len() == 0 {
        Seq::<u8>::empty()
    } else {
        (match ops[0].1 {
            Some(v) => encoded_insert(ops[0].0, v),
            None => encoded_tombstone(ops[0].0),
        }) + encode_ops(ops.drop_first())
    }
}

/// Every key and value in the operations is of encodable length.
pub open spec fn ops_bounded(ops: Seq<(Seq<u8>, Option<Seq<u8>>)>) -> bool {
    forall|i: int|
        0 <= i < ops.len() ==> (#[trigger] ops[i]).0.len() <= u32::MAX && (ops[i].1 matches Some(v)
            ==> v.len() < TOMBSTONE)
}

/// Reopen equivalence: for any sequence of insert and delete operations
/// appended to a well-formed log, replaying the grown log from disk
/// reconstructs exactly the bindings that applying the operations in order
/// maintained in memory — so the keys and values observable after a close
/// and reopen equal those observable before.
pub proof fn lemma_reopen_equivalence(b: Seq<u8>, ops: Seq<(Seq<u8>, Option<Seq<u8>>)>)
    requires
        parses(b),
        ops_bounded(ops),
    ensures
        parses(b + encode_ops(ops)),
        live(b + encode_ops(ops)) == fold_ops(live(b), ops),
    decreases ops.len(),
{
    if ops.len() == 0 {
        assert(b + encode_ops(ops) =~= b);
    } else {
        let enc0 = match ops[0].1 {
            Some(v) => encoded_insert(ops[0].0, v),
            None => encoded_tombstone(ops[0].0),
        };
        match ops[0].1 {
            Some(v) => {
                lemma_replay_append_insert(b, ops[0].0, v);
            },
            None => {
                lemma_replay_append_tombstone(b, ops[0].0);
            },
        }
        assert(live(b + enc0) == apply_op(live(b), ops[0]));
        lemma_reopen_equivalence(b + enc0, ops.drop_first());
        assert(b + encode_ops(ops) =~= (b + enc0) + encode_ops(ops.drop_first()));
    }
}

} // verus!
