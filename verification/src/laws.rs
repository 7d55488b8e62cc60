//! Laws that relate several store operations, stated over the same spec
//! functions the operations' contracts use.

use vstd::prelude::*;

use crate::list::spec_range;
use crate::set::{seq_contains, spec_sadd};
use crate::sorted_set::{lemma_z_find_at, ranked_members, spec_zadd_scores, z_find};
use crate::store::{
    data_wf, live_obj, seq_lookup, MemoryStorage, RedisObject, VModel,
};
use crate::stream::{id_le, spec_range_records, stream_model};

verus! {

/// The full id window selects the whole stream.
proof fn lemma_range_records_full(sm: Seq<(u64, u64, Seq<(Seq<u8>, Seq<u8>)>)>)
    ensures
        spec_range_records(sm, (0u64, 0u64), (u64::MAX, u64::MAX)) == sm,
    decreases sm.len(),
{
    if sm.len() == 0 {
        assert(spec_range_records(sm, (0u64, 0u64), (u64::MAX, u64::MAX)) =~= sm);
    } else {
        lemma_range_records_full(sm.drop_last());
        assert(id_le(0u64, 0u64, sm.last().0, sm.last().1));
        assert(id_le(sm.last().0, sm.last().1, u64::MAX, u64::MAX));
        assert(spec_range_records(sm, (0u64, 0u64), (u64::MAX, u64::MAX)) =~= sm.drop_last().push(
            sm.last(),
        ));
        assert(sm.drop_last().push(sm.last()) =~= sm);
    }
}

/// The whole-list window: `LRANGE k 0 -1` observes exactly the stored
/// sequence, so `LLEN k` equals the length of what `LRANGE k 0 -1` returns.
pub proof fn lemma_llen_is_lrange_len(l: Seq<Seq<u8>>)
    ensures
        spec_range(l, 0, -1) == l,
{
    if l.len() == 0 {
        assert(spec_range(l, 0, -1) =~= l);
    } else {
        assert(spec_range(l, 0, -1) =~= l.subrange(0, l.len() as int));
        assert(l.subrange(0, l.len() as int) =~= l);
    }
}

/// `TYPE k` answers `none` exactly when every read observes nothing: `GET`
/// yields nil, `LRANGE k 0 -1` and `ZRANGE k 0 -1` yield empty runs,
/// `SMEMBERS` yields no members, and `XRANGE k - +` yields no records.
pub proof fn lemma_type_none_iff_all_empty(s: MemoryStorage, k: Seq<u8>, now: u64)
    requires
        s.wf(),
    ensures
        (s.spec_get(k, now) is None) <==> ({
            &&& !(s.spec_get(k, now) matches Some(VModel::MStr(_)))
            &&& (match s.spec_get(k, now) {
                Some(VModel::MList(l)) => spec_range(l, 0, -1).len() == 0,
                _ => true,
            })
            &&& (match s.spec_get(k, now) {
                Some(VModel::MSet(m)) => m.len() == 0,
                Some(_) => false,
                None => true,
            })
            &&& (match s.spec_get(k, now) {
                Some(VModel::MZSet(_, rm)) => spec_range(ranked_members(rm), 0, -1).len() == 0,
                Some(_) => false,
                None => true,
            })
            &&& (match s.spec_get(k, now) {
                Some(VModel::MStream(sm)) => spec_range_records(
                    sm,
                    (0u64, 0u64),
                    (u64::MAX, u64::MAX),
                ).len() == 0,
                _ => true,
            })
        }),
{
    match seq_lookup(s.entries@, k) {
        None => {},
        Some(o) => {
            if live_obj(o, now) {
                crate::store::lemma_lookup_obj_in(s.entries@, k);
                let i = choose|i: int|
                    0 <= i < s.entries@.len() && (#[trigger] s.entries@[i]).1 == o;
                assert(data_wf(o.data));
                match o.data {
                    crate::store::RedisDataType::String(_) => {},
                    crate::store::RedisDataType::List(l) => {
                        lemma_llen_is_lrange_len(crate::store::seq_views(l@));
                    },
                    crate::store::RedisDataType::SetVal(_) => {},
                    crate::store::RedisDataType::SortedSet(z) => {
                        assert(z.ranked_model().len() == z.scores_model().len());
                        lemma_llen_is_lrange_len(ranked_members(z.ranked_model()));
                    },
                    crate::store::RedisDataType::Stream(st) => {
                        lemma_range_records_full(stream_model(st@));
                    },
                }
            }
        },
    }
}

/// FLUSHDB is idempotent: flushing an already empty store observes the same
/// (empty) state at every key.
pub proof fn lemma_flush_idempotent(a: MemoryStorage, b: MemoryStorage)
    requires
        a.entries@.len() == 0,
        b.entries@.len() == 0,
    ensures
        forall|k: Seq<u8>| #[trigger] a.spec_entry(k) == b.spec_entry(k),
        forall|k: Seq<u8>| #[trigger] a.spec_entry(k) is None,
{
}

/// SADD of the same member a second time adds nothing and changes nothing.
pub proof fn lemma_sadd_idempotent(s: Seq<Seq<u8>>, m: Seq<u8>)
    ensures
        spec_sadd(spec_sadd(s, seq![m]).0, seq![m]) == (spec_sadd(s, seq![m]).0, 0int),
{
    let one = seq![m];
    assert(one.drop_last() =~= Seq::<Seq<u8>>::empty());
    assert(one.last() == m);
    assert(spec_sadd(s, Seq::<Seq<u8>>::empty()) == (s, 0int));
    assert(spec_sadd(spec_sadd(s, one).0, Seq::<Seq<u8>>::empty()) == (spec_sadd(s, one).0, 0int));
    let s1 = spec_sadd(s, one).0;
    assert(seq_contains(s1, m)) by {
        if seq_contains(s, m) {
            assert(s1 == s);
        } else {
            assert(s1 == s.push(m));
            assert(s1[s.len() as int] == m);
        }
    }
}

/// ZADD of the same (score, member) pair a second time adds nothing and
/// changes nothing, provided members are unique as the store keeps them.
pub proof fn lemma_zadd_idempotent(sm: Seq<(Seq<u8>, u64, Seq<u8>)>, bits: u64, text: Seq<u8>, m: Seq<u8>)
    requires
        forall|i: int, j: int|
            0 <= i < j < sm.len() ==> (#[trigger] sm[i]).0 != (#[trigger] sm[j]).0,
    ensures
        spec_zadd_scores(spec_zadd_scores(sm, seq![(bits, text, m)]).0, seq![(bits, text, m)])
            == (spec_zadd_scores(sm, seq![(bits, text, m)]).0, 0int),
{
    let one = seq![(bits, text, m)];
    assert(one.drop_last() =~= Seq::<(u64, Seq<u8>, Seq<u8>)>::empty());
    assert(one.last() == (bits, text, m));
    assert(spec_zadd_scores(sm, Seq::<(u64, Seq<u8>, Seq<u8>)>::empty()) == (sm, 0int));
    assert(spec_zadd_scores(spec_zadd_scores(sm, one).0, Seq::<(u64, Seq<u8>, Seq<u8>)>::empty())
        == (spec_zadd_scores(sm, one).0, 0int));
    crate::sorted_set::lemma_z_find(sm, m);
    let i0 = z_find(sm, m);
    let s1 = spec_zadd_scores(sm, one).0;
    if i0 == -1 {
        assert(s1 == sm.push((m, bits, text)));
        assert(s1[sm.len() as int] == (m, bits, text));
        lemma_z_find_at(s1, m, sm.len() as int);
        assert(spec_zadd_scores(s1, one).0 == s1.update(sm.len() as int, (m, bits, text)));
        assert(s1.update(sm.len() as int, (m, bits, text)) =~= s1);
    } else {
        assert(s1 == sm.update(i0, (m, bits, text)));
        assert(s1[i0] == (m, bits, text));
        assert forall|j: int| 0 <= j < i0 implies (#[trigger] s1[j]).0 != m by {
            assert(s1[j] == sm[j]);
            assert(sm[i0].0 == m);
        }
        lemma_z_find_at(s1, m, i0);
        assert(spec_zadd_scores(s1, one).0 == s1.update(i0, (m, bits, text)));
        assert(s1.update(i0, (m, bits, text)) =~= s1);
    }
}

} // verus!
