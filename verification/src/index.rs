use vstd::prelude::*;

use crate::order::{key_eq, key_lt};

verus! {

use crate::codec::{record_at, is_tombstone_at, key_at, value_at, record_end};
use crate::order::{lex_lt, lemma_lex_total, lemma_lex_trans};
use crate::replay::{live, slots};

/// Location of the most recent live record of a key: the offset at which
/// the record begins and its total serialized length. The length is
/// bookkeeping only, reserved for a future compaction pass.
#[derive(Clone, Copy, Debug, PartialEq, Eq, Structural)]
pub struct IndexEntry {
    pub position: u64,
    pub size: usize,
}

/// An index entry is consistent with the log, a map of bindings `m`, and a
/// map of record locations `pm`: it holds exactly the location that the
/// fold bound the key to, and that location carries a complete
/// non-tombstone record holding this key and the key's binding in `m`.
pub open spec fn entry_tracks(
    log: Seq<u8>,
    m: Map<Seq<u8>, Seq<u8>>,
    pm: Map<Seq<u8>, (int, int)>,
    k: Seq<u8>,
    e: IndexEntry,
) -> bool {
    &&& record_at(log, e.position as int)
    &&& !is_tombstone_at(log, e.position as int)
    &&& key_at(log, e.position as int) == k
    &&& m.contains_key(k)
    &&& value_at(log, e.position as int) == m[k]
    &&& e.size == record_end(log, e.position as int) - e.position
    &&& pm.contains_key(k)
    &&& pm[k] == (e.position as int, e.size as int)
}

/// An index entry is consistent with the log: it holds the position and
/// serialized length of the key's most recent insert record — the location
/// the replay fold binds the key to — and that record holds exactly this
/// key and the key's current live value.
pub open spec fn entry_ok(log: Seq<u8>, k: Seq<u8>, e: IndexEntry) -> bool {
    entry_tracks(log, live(log), slots(log), k, e)
}

/// The index keys are in strictly ascending byte-lexicographic order.
pub open spec fn index_sorted(v: Seq<(Vec<u8>, IndexEntry)>) -> bool {
    forall|i: int, j: int|
        #![trigger v[i], v[j]]
        0 <= i < j < v.len() ==> lex_lt(v[i].0@, v[j].0@)
}

/// Some index slot holds the key.
pub open spec fn index_has_key(v: Seq<(Vec<u8>, IndexEntry)>, k: Seq<u8>) -> bool {
    exists|i: int| 0 <= i < v.len() && (#[trigger] v[i]).0@ == k
}

/// The pair occupies some slot of the index.
pub open spec fn index_mem(v: Seq<(Vec<u8>, IndexEntry)>, p: (Vec<u8>, IndexEntry)) -> bool {
    exists|i: int| 0 <= i < v.len() && (#[trigger] v[i]) == p
}

/// The index is exactly the live state of the log, in ascending key order:
/// sorted, every slot consistent with the log, and every live key present.
pub open spec fn index_wf(log: Seq<u8>, v: Seq<(Vec<u8>, IndexEntry)>) -> bool {
    &&& index_sorted(v)
    &&& forall|i: int| 0 <= i < v.len() ==> entry_ok(log, (#[trigger] v[i]).0@, v[i].1)
    &&& forall|k: Seq<u8>| #[trigger] live(log).contains_key(k) ==> index_has_key(v, k)
}

/// In a sorted index no key occupies two slots.
pub proof fn lemma_sorted_distinct(v: Seq<(Vec<u8>, IndexEntry)>, i: int, j: int)
    requires
        index_sorted(v),
        0 <= i < v.len(),
        0 <= j < v.len(),
        i != j,
    ensures
        v[i].0@ != v[j].0@,
{
    if i < j {
        lemma_lex_total(v[i].0@, v[j].0@);
    } else {
        lemma_lex_total(v[j].0@, v[i].0@);
    }
}

/// Two strictly sorted indexes that hold the same keys list them in the
/// same slots.
proof fn lemma_sorted_same_keys_equal(
    v1: Seq<(Vec<u8>, IndexEntry)>,
    v2: Seq<(Vec<u8>, IndexEntry)>,
)
    requires
        index_sorted(v1),
        index_sorted(v2),
        forall|k: Seq<u8>| index_has_key(v1, k) <==> index_has_key(v2, k),
    ensures
        v1.len() == v2.len(),
        forall|i: int| 0 <= i < v1.len() ==> (#[trigger] v1[i]).0@ == v2[i].0@,
    decreases v1.len(),
{
    if v1.len() == 0 {
        if v2.len() > 0 {
            assert(index_has_key(v2, v2[0].0@));
            assert(false);
        }
    } else if v2.len() == 0 {
        assert(index_has_key(v1, v1[0].0@));
        assert(false);
    } else {
        let k1 = v1[0].0@;
        let k2 = v2[0].0@;
        if k1 != k2 {
            assert(index_has_key(v1, k1));
            let j = choose|j: int| 0 <= j < v2.len() && (#[trigger] v2[j]).0@ == k1;
            assert(index_has_key(v2, k2));
            let t = choose|t: int| 0 <= t < v1.len() && (#[trigger] v1[t]).0@ == k2;
            assert(j != 0 && t != 0);
            assert(lex_lt(k2, v2[j].0@));
            assert(lex_lt(k1, v1[t].0@));
            lemma_lex_total(k1, k2);
            assert(false);
        }
        let w1 = v1.drop_first();
        let w2 = v2.drop_first();
        assert forall|a: int, b: int|
            0 <= a < b < w1.len() implies lex_lt((#[trigger] w1[a]).0@, (#[trigger] w1[b]).0@) by {
            assert(w1[a] == v1[a + 1] && w1[b] == v1[b + 1]);
        }
        assert forall|a: int, b: int|
            0 <= a < b < w2.len() implies lex_lt((#[trigger] w2[a]).0@, (#[trigger] w2[b]).0@) by {
            assert(w2[a] == v2[a + 1] && w2[b] == v2[b + 1]);
        }
        assert forall|k: Seq<u8>| index_has_key(w1, k) implies index_has_key(w2, k) by {
            let i = choose|i: int| 0 <= i < w1.len() && (#[trigger] w1[i]).0@ == k;
            assert(v1[i + 1].0@ == k);
            assert(index_has_key(v1, k));
            lemma_sorted_distinct(v1, 0, i + 1);
            let j = choose|j: int| 0 <= j < v2.len() && (#[trigger] v2[j]).0@ == k;
            assert(j != 0);
            assert(w2[j - 1].0@ == k);
        }
        assert forall|k: Seq<u8>| index_has_key(w2, k) implies index_has_key(w1, k) by {
            let i = choose|i: int| 0 <= i < w2.len() && (#[trigger] w2[i]).0@ == k;
            assert(v2[i + 1].0@ == k);
            assert(index_has_key(v2, k));
            lemma_sorted_distinct(v2, 0, i + 1);
            let j = choose|j: int| 0 <= j < v1.len() && (#[trigger] v1[j]).0@ == k;
            assert(j != 0);
            assert(w1[j - 1].0@ == k);
        }
        lemma_sorted_same_keys_equal(w1, w2);
        assert forall|i: int| 0 <= i < v1.len() implies (#[trigger] v1[i]).0@ == v2[i].0@ by {
            if i > 0 {
                assert(w1[i - 1].0@ == w2[i - 1].0@);
                assert(v1[i] == w1[i - 1] && v2[i] == w2[i - 1]);
            }
        }
    }
}

/// One log admits one index: any two well-formed indexes over the same
/// log agree slot for slot. In particular, the index an instance carries
/// after any run of mutations equals the index that replaying its bytes
/// rebuilds.
pub proof fn lemma_index_determined(
    log: Seq<u8>,
    v1: Seq<(Vec<u8>, IndexEntry)>,
    v2: Seq<(Vec<u8>, IndexEntry)>,
)
    requires
        index_wf(log, v1),
        index_wf(log, v2),
    ensures
        v1.len() == v2.len(),
        forall|i: int|
            0 <= i < v1.len() ==> (#[trigger] v1[i]).0@ == v2[i].0@ && v1[i].1 == v2[i].1,
{
    assert forall|k: Seq<u8>| index_has_key(v1, k) <==> index_has_key(v2, k) by {
        if index_has_key(v1, k) {
            let i = choose|i: int| 0 <= i < v1.len() && (#[trigger] v1[i]).0@ == k;
            assert(entry_ok(log, v1[i].0@, v1[i].1));
            assert(live(log).contains_key(k));
        }
        if index_has_key(v2, k) {
            let i = choose|i: int| 0 <= i < v2.len() && (#[trigger] v2[i]).0@ == k;
            assert(entry_ok(log, v2[i].0@, v2[i].1));
            assert(live(log).contains_key(k));
        }
    }
    lemma_sorted_same_keys_equal(v1, v2);
    assert forall|i: int| 0 <= i < v1.len() implies v1[i].1 == (#[trigger] v2[i]).1 by {
        let k = v1[i].0@;
        assert(entry_ok(log, v1[i].0@, v1[i].1));
        assert(entry_ok(log, v2[i].0@, v2[i].1));
        assert(v1[i].1.position as int == slots(log)[k].0);
        assert(v2[i].1.position as int == slots(log)[k].0);
        assert(v1[i].1.size as int == slots(log)[k].1);
        assert(v2[i].1.size as int == slots(log)[k].1);
    }
}

/// Finds the slot that holds `key`, if any slot does.
pub fn index_find(v: &Vec<(Vec<u8>, IndexEntry)>, key: &[u8]) -> (r: Option<usize>)
    ensures
        r matches Some(i) ==> i < v@.len() && v@[i as int].0@ == key@,
        r is None ==> !index_has_key(v@, key@),
{
    let mut i: usize = 0;
    while i < v.len()
        invariant
            i <= v@.len(),
            forall|j: int| 0 <= j < i ==> (#[trigger] v@[j]).0@ != key@,
        decreases v@.len() - i,
    {
        if key_eq(v[i].0.as_slice(), key) {
            return Some(i);
        }
        i = i + 1;
    }
    None
}

/// Binds `key` to `entry`, overwriting the slot that already holds the key
/// or opening a new slot at the key's ordered place.
pub fn index_upsert(v: &mut Vec<(Vec<u8>, IndexEntry)>, key: &[u8], entry: IndexEntry)
    requires
        index_sorted(old(v)@),
    ensures
        index_sorted(final(v)@),
        index_has_key(final(v)@, key@),
        forall|k: Seq<u8>| index_has_key(old(v)@, k) ==> index_has_key(final(v)@, k),
        forall|k: Seq<u8>| index_has_key(final(v)@, k) ==> index_has_key(old(v)@, k) || k == key@,
        forall|i: int|
            #![trigger final(v)@[i]]
            0 <= i < final(v)@.len() ==> if final(v)@[i].0@ == key@ {
                final(v)@[i].1 == entry
            } else {
                index_mem(old(v)@, final(v)@[i])
            },
{
    let ghost v0 = v@;
    let mut j: usize = 0;
    while j < v.len() && key_lt(v[j].0.as_slice(), key)
        invariant
            j <= v@.len(),
            v@ == v0,
            forall|t: int| 0 <= t < j ==> lex_lt((#[trigger] v@[t]).0@, key@),
        decreases v@.len() - j,
    {
        j = j + 1;
    }
    if j < v.len() && key_eq(v[j].0.as_slice(), key) {
        v[j].1 = entry;
        proof {
            assert(v@[j as int].0@ == key@);
            assert forall|i: int| 0 <= i < v@.len() && i != j implies v@[i].0@ != key@ by {
                lemma_sorted_distinct(v0, i, j as int);
                assert(v@[i] == v0[i]);
            }
            assert forall|a: int, b: int|
                0 <= a < b < v@.len() implies lex_lt((#[trigger] v@[a]).0@, (#[trigger] v@[b]).0@) by {
                assert(v0[a].0@ == v@[a].0@);
                assert(v0[b].0@ == v@[b].0@);
            }
            assert forall|k: Seq<u8>| index_has_key(v0, k) implies index_has_key(v@, k) by {
                let i = choose|i: int| 0 <= i < v0.len() && v0[i].0@ == k;
                assert(v@[i].0@ == k);
            }
            assert forall|i: int| 0 <= i < v@.len() && v@[i].0@ != key@ implies index_mem(
                v0,
                v@[i],
            ) by {
                assert(v@[i] == v0[i]);
            }
        }
    } else {
        proof {
            if j < v@.len() {
                lemma_lex_total(v@[j as int].0@, key@);
            }
            assert(forall|t: int|
                j <= t < v@.len() ==> lex_lt(key@, (#[trigger] v@[t]).0@)) by {
                assert forall|t: int| j <= t < v@.len() implies lex_lt(
                    key@,
                    (#[trigger] v@[t]).0@,
                ) by {
                    if t > j {
                        lemma_lex_trans(key@, v@[j as int].0@, v@[t].0@);
                    }
                }
            }
        }
        let kvec = vstd::slice::slice_to_vec(key);
        v.insert(j, (kvec, entry));
        proof {
            let vf = v@;
            assert(vf[j as int].0@ == key@);
            assert forall|i: int| 0 <= i < vf.len() && i != j implies vf[i].0@ != key@ by {
                if i < j {
                    assert(vf[i] == v0[i]);
                    lemma_lex_total(v0[i].0@, key@);
                } else {
                    assert(vf[i] == v0[i - 1]);
                    lemma_lex_total(key@, v0[i - 1].0@);
                }
            }
            assert forall|a: int, b: int|
                0 <= a < b < vf.len() implies lex_lt((#[trigger] vf[a]).0@, (#[trigger] vf[b]).0@) by {
                if b < j {
                    assert(vf[a] == v0[a] && vf[b] == v0[b]);
                } else if a > j {
                    assert(vf[a] == v0[a - 1] && vf[b] == v0[b - 1]);
                } else if a < j && b == j {
                    assert(vf[a] == v0[a]);
                } else if a == j && b > j {
                    assert(vf[b] == v0[b - 1]);
                } else if a < j && b > j {
                    assert(vf[a] == v0[a] && vf[b] == v0[b - 1]);
                    lemma_lex_trans(vf[a].0@, key@, vf[b].0@);
                }
            }
            assert forall|k: Seq<u8>| index_has_key(v0, k) implies index_has_key(vf, k) by {
                let i = choose|i: int| 0 <= i < v0.len() && v0[i].0@ == k;
                if i < j {
                    assert(vf[i].0@ == k);
                } else {
                    assert(vf[i + 1].0@ == k);
                }
            }
            assert forall|i: int| 0 <= i < vf.len() && vf[i].0@ != key@ implies index_mem(
                v0,
                vf[i],
            ) by {
                if i < j {
                    assert(vf[i] == v0[i]);
                } else {
                    assert(vf[i] == v0[i - 1]);
                }
            }
        }
    }
}

/// Closes the slot `i` of a sorted index; the order of the rest stands.
pub fn index_remove_at(v: &mut Vec<(Vec<u8>, IndexEntry)>, i: usize)
    requires
        index_sorted(old(v)@),
        i < old(v)@.len(),
    ensures
        index_sorted(final(v)@),
        final(v)@ == old(v)@.remove(i as int),
        forall|k: Seq<u8>| index_has_key(old(v)@, k) && k != old(v)@[i as int].0@
            ==> index_has_key(final(v)@, k),
        forall|p: (Vec<u8>, IndexEntry)| index_mem(final(v)@, p) ==> index_mem(old(v)@, p),
{
    let ghost v0 = v@;
    v.remove(i);
    proof {
        let vf = v@;
        assert forall|a: int, b: int|
            0 <= a < b < vf.len() implies lex_lt((#[trigger] vf[a]).0@, (#[trigger] vf[b]).0@) by {
            let a0 = if a < i { a } else { a + 1 };
            let b0 = if b < i { b } else { b + 1 };
            assert(vf[a] == v0[a0] && vf[b] == v0[b0]);
        }
        assert forall|k: Seq<u8>|
            index_has_key(v0, k) && k != v0[i as int].0@ implies index_has_key(vf, k) by {
            let t = choose|t: int| 0 <= t < v0.len() && v0[t].0@ == k;
            if t < i {
                assert(vf[t].0@ == k);
            } else {
                assert(t > i);
                assert(vf[t - 1].0@ == k);
            }
        }
        assert forall|p: (Vec<u8>, IndexEntry)| index_mem(vf, p) implies index_mem(v0, p) by {
            let t = choose|t: int| 0 <= t < vf.len() && vf[t] == p;
            if t < i {
                assert(v0[t] == p);
            } else {
                assert(v0[t + 1] == p);
            }
        }
    }
}

} // verus!
