//! Records and their mathematical model: an ordered list of key/value pairs
//! in which every key occurs at most once.

use vstd::prelude::*;

verus! {

/// A record as the contracts see it: key and value as character sequences.
pub type RecordView = (Seq<char>, Seq<char>);

/// The view of one stored record.
pub open spec fn record_view(r: (String, String)) -> RecordView {
    (r.0@, r.1@)
}

/// The view of a list of stored records.
pub open spec fn records_view(v: Seq<(String, String)>) -> Seq<RecordView> {
    v.map_values(|r: (String, String)| record_view(r))
}

/// No key occurs twice.
pub open spec fn keys_unique(rs: Seq<RecordView>) -> bool {
    forall|i: int, j: int| 0 <= i < j < rs.len() ==> rs[i].0 != rs[j].0
}

/// Some record has key `k`.
pub open spec fn has_key(rs: Seq<RecordView>, k: Seq<char>) -> bool {
    exists|i: int| 0 <= i < rs.len() && rs[i].0 == k
}

/// The mapping that the records stand for: read from first to last, a later
/// record overrides an earlier one with the same key.
pub open spec fn map_of(rs: Seq<RecordView>) -> Map<Seq<char>, Seq<char>>
    decreases rs.len(),
{
    if rs.len() == 0 {
        Map::empty()
    } else {
        map_of(rs.drop_last()).insert(rs.last().0, rs.last().1)
    }
}

/// Insert-or-overwrite: the record with key `k` takes value `v` where there
/// is one; otherwise `(k, v)` is appended.
pub open spec fn upsert(rs: Seq<RecordView>, k: Seq<char>, v: Seq<char>) -> Seq<RecordView> {
    if has_key(rs, k) {
        rs.map_values(|r: RecordView| if r.0 == k { (k, v) } else { r })
    } else {
        rs.push((k, v))
    }
}

/// The number of records with key `k`.
pub open spec fn key_count(rs: Seq<RecordView>, k: Seq<char>) -> nat
    decreases rs.len(),
{
    if rs.len() == 0 {
        0
    } else {
        key_count(rs.drop_last(), k) + if rs.last().0 == k { 1nat } else { 0nat }
    }
}

/// With unique keys, the mapping sends each record's key to its value.
pub proof fn lemma_map_of_unique(rs: Seq<RecordView>)
    requires
        keys_unique(rs),
    ensures
        forall|k: Seq<char>| #[trigger] map_of(rs).contains_key(k) <==> has_key(rs, k),
        forall|i: int| 0 <= i < rs.len() ==> #[trigger] map_of(rs)[rs[i].0] == rs[i].1,
    decreases rs.len(),
{
    if rs.len() > 0 {
        let p = rs.drop_last();
        let n = rs.len() - 1;
        lemma_map_of_unique(p);
        assert(map_of(rs) == map_of(p).insert(rs[n].0, rs[n].1));
        assert forall|k: Seq<char>| #[trigger] map_of(rs).contains_key(k) <==> has_key(rs, k) by {
            if has_key(rs, k) {
                let i = choose|i: int| 0 <= i < rs.len() && rs[i].0 == k;
                if i < n {
                    assert(p[i].0 == k);
                }
            }
            if has_key(p, k) {
                let i = choose|i: int| 0 <= i < p.len() && p[i].0 == k;
                assert(rs[i].0 == k);
            }
            if k == rs[n].0 {
                assert(rs[n].0 == k);
            }
        }
        assert forall|i: int| 0 <= i < rs.len() implies #[trigger] map_of(rs)[rs[i].0]
            == rs[i].1 by {
            if i < n {
                assert(p[i] == rs[i]);
                assert(rs[i].0 != rs[n].0);
            }
        }
    }
}

/// Upserting keeps keys unique and changes the mapping by one insertion.
pub proof fn lemma_upsert(rs: Seq<RecordView>, k: Seq<char>, v: Seq<char>)
    requires
        keys_unique(rs),
    ensures
        keys_unique(upsert(rs, k, v)),
        map_of(upsert(rs, k, v)) == map_of(rs).insert(k, v),
        has_key(upsert(rs, k, v), k),
{
    let u = upsert(rs, k, v);
    if has_key(rs, k) {
        let i = choose|i: int| 0 <= i < rs.len() && rs[i].0 == k;
        assert(u[i].0 == k);
    } else {
        assert(u[rs.len() as int].0 == k);
    }
    assert(keys_unique(u));
    lemma_map_of_unique(rs);
    lemma_map_of_unique(u);
    assert forall|key: Seq<char>| #[trigger] map_of(u).contains_key(key) <==> map_of(rs).insert(
        k,
        v,
    ).contains_key(key) by {
        if has_key(u, key) && key != k {
            let j = choose|j: int| 0 <= j < u.len() && u[j].0 == key;
            assert(rs[j].0 == key);
        }
        if has_key(rs, key) {
            let j = choose|j: int| 0 <= j < rs.len() && rs[j].0 == key;
            assert(u[j].0 == key);
        }
    }
    assert forall|key: Seq<char>| #[trigger] map_of(u).contains_key(key) implies map_of(u)[key]
        == map_of(rs).insert(k, v)[key] by {
        let j = choose|j: int| 0 <= j < u.len() && u[j].0 == key;
        assert(map_of(u)[u[j].0] == u[j].1);
        if key != k {
            assert(rs[j].0 == key);
            assert(map_of(rs)[rs[j].0] == rs[j].1);
        }
    }
    assert(map_of(u) =~= map_of(rs).insert(k, v));
}

/// Upsert law: storing `v1` and then `v2` under the same key leaves exactly
/// one record for that key, holding `v2`, and the mapping is as if only `v2`
/// had been stored.
pub proof fn lemma_upsert_twice(rs: Seq<RecordView>, k: Seq<char>, v1: Seq<char>, v2: Seq<char>)
    requires
        keys_unique(rs),
    ensures
        key_count(upsert(upsert(rs, k, v1), k, v2), k) == 1,
        map_of(upsert(upsert(rs, k, v1), k, v2)).contains_key(k),
        map_of(upsert(upsert(rs, k, v1), k, v2))[k] == v2,
        map_of(upsert(upsert(rs, k, v1), k, v2)) == map_of(rs).insert(k, v2),
{
    let u1 = upsert(rs, k, v1);
    lemma_upsert(rs, k, v1);
    lemma_upsert(u1, k, v2);
    let u2 = upsert(u1, k, v2);
    lemma_key_count_unique(u2, k);
    assert(map_of(rs).insert(k, v1).insert(k, v2) =~= map_of(rs).insert(k, v2));
}

/// With unique keys a key present occurs exactly once.
pub proof fn lemma_key_count_unique(rs: Seq<RecordView>, k: Seq<char>)
    requires
        keys_unique(rs),
        has_key(rs, k),
    ensures
        key_count(rs, k) == 1,
    decreases rs.len(),
{
    let p = rs.drop_last();
    if rs.last().0 == k {
        assert forall|i: int| 0 <= i < p.len() implies p[i].0 != k by {
            assert(rs[i] == p[i]);
        }
        lemma_key_count_absent(p, k);
    } else {
        let i = choose|i: int| 0 <= i < rs.len() && rs[i].0 == k;
        assert(p[i].0 == k);
        lemma_key_count_unique(p, k);
    }
}

proof fn lemma_key_count_absent(rs: Seq<RecordView>, k: Seq<char>)
    requires
        forall|i: int| 0 <= i < rs.len() ==> rs[i].0 != k,
    ensures
        key_count(rs, k) == 0,
    decreases rs.len(),
{
    if rs.len() > 0 {
        lemma_key_count_absent(rs.drop_last(), k);
    }
}

/// Stores `value` under `key` in a list of records with unique keys.
pub fn upsert_record(records: &mut Vec<(String, String)>, key: String, value: String)
    requires
        keys_unique(records_view(old(records)@)),
    ensures
        records_view(final(records)@) == upsert(records_view(old(records)@), key@, value@),
        keys_unique(records_view(final(records)@)),
        map_of(records_view(final(records)@)) == map_of(records_view(old(records)@)).insert(
            key@,
            value@,
        ),
{
    let ghost rs = records_view(records@);
    let ghost kv = key@;
    let ghost vv = value@;
    proof {
        lemma_upsert(rs, kv, vv);
    }
    let n = records.len();
    let mut i: usize = 0;
    while i < n && records[i].0 != key
        invariant
            n == records@.len(),
            records_view(records@) == rs,
            i <= n,
            forall|j: int| 0 <= j < i ==> rs[j].0 != key@,
        decreases n - i,
    {
        i = i + 1;
    }
    if i < n {
        assert(rs[i as int].0 == kv);
        records.set(i, (key, value));
        assert forall|j: int| 0 <= j < rs.len() && #[trigger] rs[j].0 == kv implies j == i by {}
        assert(records_view(records@) =~= upsert(rs, kv, vv));
    } else {
        records.push((key, value));
        assert(records_view(records@) =~= upsert(rs, kv, vv));
    }
}

} // verus!
