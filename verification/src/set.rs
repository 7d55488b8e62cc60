//! Sets: unordered collections of unique byte strings.

use vstd::prelude::*;

use crate::list::entry_expiry;
use crate::store::{
    clone_bytes, lemma_lookup_push, lemma_lookup_remove, lemma_lookup_update, seq_views,
    unique_views, MemoryStorage, RedisDataType, RedisObject, VModel,
};
use crate::store::obj_live;
use crate::util::bytes_eq;

verus! {

broadcast use crate::store::lemma_seq_views_index;

/// Whether `s` holds `x`.
pub open spec fn seq_contains(s: Seq<Seq<u8>>, x: Seq<u8>) -> bool {
    exists|j: int| 0 <= j < s.len() && s[j] == x
}

/// The set after adding the members in order, and how many were new.
pub open spec fn spec_sadd(s: Seq<Seq<u8>>, ms: Seq<Seq<u8>>) -> (Seq<Seq<u8>>, int)
    decreases ms.len(),
{
    if ms.len() == 0 {
        (s, 0)
    } else {
        let (s1, c) = spec_sadd(s, ms.drop_last());
        if seq_contains(s1, ms.last()) {
            (s1, c)
        } else {
            (s1.push(ms.last()), c + 1)
        }
    }
}

/// The set after removing the members in order, and how many were present.
pub open spec fn spec_srem(s: Seq<Seq<u8>>, ms: Seq<Seq<u8>>) -> (Seq<Seq<u8>>, int)
    decreases ms.len(),
{
    if ms.len() == 0 {
        (s, 0)
    } else {
        let (s1, c) = spec_srem(s, ms.drop_last());
        if seq_contains(s1, ms.last()) {
            (s1.remove(s1.index_of(ms.last())), c + 1)
        } else {
            (s1, c)
        }
    }
}

/// The error returned when a set command meets another type.
pub open spec fn spec_not_set() -> Seq<u8> {
    seq![78u8, 111u8, 116u8, 32u8, 97u8, 32u8, 115u8, 101u8, 116u8]
}

fn not_set() -> (r: Vec<u8>)
    ensures
        r@ == spec_not_set(),
{
    let mut v: Vec<u8> = Vec::new();
    v.push(78);
    v.push(111);
    v.push(116);
    v.push(32);
    v.push(97);
    v.push(32);
    v.push(115);
    v.push(101);
    v.push(116);
    assert(v@ =~= spec_not_set());
    v
}

/// Index of `x` in the views of `v`, if present.
#[verifier::loop_isolation(false)]
pub(crate) fn find_member(v: &Vec<Vec<u8>>, x: &Vec<u8>) -> (r: Option<usize>)
    ensures
        match r {
            Some(i) => i < v@.len() && v@[i as int]@ == x@ && seq_contains(seq_views(v@), x@) && (
            forall|j: int| 0 <= j < i ==> seq_views(v@)[j] != x@),
            None => !seq_contains(seq_views(v@), x@),
        },
{
    let mut i: usize = 0;
    while i < v.len()
        invariant
            0 <= i <= v@.len(),
            forall|j: int| 0 <= j < i ==> seq_views(v@)[j] != x@,
        decreases v@.len() - i,
    {
        if bytes_eq(v[i].as_slice(), x.as_slice()) {
            proof {
                assert(seq_views(v@)[i as int] == x@);
            }
            return Some(i);
        }
        i = i + 1;
    }
    proof {
        if seq_contains(seq_views(v@), x@) {
            let j = choose|j: int| 0 <= j < seq_views(v@).len() && seq_views(v@)[j] == x@;
            assert(seq_views(v@)[j] != x@);
        }
    }
    None
}

impl MemoryStorage {
    /// SADD: insert members, creating the set if the key is missing or
    /// expired; how many members were actually new. Fails on a live value of
    /// another type and changes nothing.
    #[verifier::loop_isolation(false)]
    pub fn sadd(&mut self, key: &Vec<u8>, members: Vec<Vec<u8>>, now: u64) -> (r: Result<
        i64,
        Vec<u8>,
    >)
        requires
            old(self).wf(),
            members@.len() >= 1,
            members@.len() <= i64::MAX,
        ensures
            final(self).wf(),
            forall|k2: Seq<u8>|
                k2 != key@ ==> #[trigger] final(self).spec_entry(k2) == old(self).spec_entry(k2),
            match r {
                Ok(n) => ({
                    let base = match old(self).spec_get(key@, now) {
                        Some(VModel::MSet(s)) => s,
                        _ => Seq::empty(),
                    };
                    let out = spec_sadd(base, seq_views(members@));
                    let exp = if old(self).spec_get(key@, now) is Some {
                        entry_expiry(old(self).spec_entry(key@))
                    } else {
                        None
                    };
                    &&& !(old(self).spec_get(key@, now) matches Some(v) && !(v is MSet))
                    &&& final(self).spec_entry(key@) == Some((exp, VModel::MSet(out.0)))
                    &&& n == out.1
                }),
                Err(e) => ({
                    &&& old(self).spec_get(key@, now) matches Some(v) && !(v is MSet)
                    &&& e@ == spec_not_set()
                    &&& final(self).entries@ == old(self).entries@
                }),
            },
    {
        let ghost old_self = *self;
        let mut set: Vec<Vec<u8>> = Vec::new();
        let mut exp: Option<u64> = None;
        let mut at: Option<usize> = None;
        match self.find_idx(key) {
            None => {},
            Some(i) => {
                let o = &self.entries[i].1;
                if obj_live(o, now) {
                    match &o.data {
                        RedisDataType::SetVal(_) => {},
                        _ => {
                            return Err(not_set());
                        },
                    }
                }
                at = Some(i);
            },
        }
        let idx_opt = at;
        match idx_opt {
            Some(i) => {
                let (k, o) = self.entries.remove(i);
                let live_now = obj_live(&o, now);
                let RedisObject { expires_at, data } = o;
                if live_now {
                    exp = expires_at;
                    match data {
                        RedisDataType::SetVal(sv) => {
                            set = sv;
                        },
                        _ => {
                            proof {
                                assert(false);
                            }
                        },
                    }
                }
                let _ = k;
            },
            None => {},
        }
        let ghost base = seq_views(set@);
        let ghost ms = seq_views(members@);
        proof {
            assert forall|a: int, b: int| 0 <= a < b < base.len() implies base[a] != base[b] by {
                assert(base[a] == set@[a]@);
                assert(base[b] == set@[b]@);
            }
            assert(unique_views_abs(base));
            match old(self).spec_get(key@, now) {
                Some(VModel::MSet(s0)) => {
                    assert(base == s0);
                },
                _ => {
                    assert(base =~= Seq::<Seq<u8>>::empty());
                },
            }
        }
        let mut rest = members;
        let mut added: i64 = 0;
        let ghost n = ms.len();
        while rest.len() > 0
            invariant
                seq_views(rest@) =~= ms.skip(n - rest@.len()),
                rest@.len() <= n,
                n <= i64::MAX,
                0 <= added <= n - rest@.len(),
                (seq_views(set@), added as int) == spec_sadd(base, ms.take(n - rest@.len())),
            decreases rest@.len(),
        {
            let ghost done = n - rest@.len();
            let ghost prer = rest@;
            let m = rest.remove(0);
            proof {
                assert(seq_views(prer)[0] == m@);
                assert(ms.skip(done)[0] == ms[done]);
                assert(seq_views(rest@) =~= seq_views(prer).drop_first());
                assert(seq_views(prer).drop_first() =~= ms.skip(done + 1));
                assert(ms.take(done + 1).drop_last() =~= ms.take(done));
                assert(ms.take(done + 1).last() == ms[done]);
            }
            match find_member(&set, &m) {
                Some(_) => {},
                None => {
                    let ghost pres = set@;
                    set.push(m);
                    added = added + 1;
                    proof {
                        assert forall|x: int| 0 <= x < set@.len() implies seq_views(set@)[x]
                            == seq_views(pres).push(ms[done])[x] by {
                            if x < pres.len() {
                                assert(seq_views(set@)[x] == set@[x]@);
                                assert(set@[x] == pres[x]);
                                assert(seq_views(pres)[x] == pres[x]@);
                            } else {
                                assert(seq_views(set@)[x] == ms[done]);
                            }
                        }
                        assert(seq_views(set@) =~= seq_views(pres).push(ms[done]));
                    }
                },
            }
        }
        proof {
            assert(ms.take(n as int) =~= ms);
        }
        proof {
            lemma_sadd_wf(base, ms);
            assert forall|a: int, b: int| 0 <= a < b < set@.len() implies (set@[a])@ != (
            set@[b])@ by {
                assert(seq_views(set@)[a] == set@[a]@);
                assert(seq_views(set@)[b] == set@[b]@);
            }
            assert(unique_views(set@));
            assert(set@.len() == seq_views(set@).len());
            assert(set@.len() >= 1);
        }
        let new_obj = RedisObject { expires_at: exp, data: RedisDataType::SetVal(set) };
        match idx_opt {
            Some(i) => {
                self.entries.insert(i, (clone_bytes(key), new_obj));
                proof {
                    assert(self.entries@ =~= old_self.entries@.update(
                        i as int,
                        (self.entries@[i as int].0, new_obj),
                    ));
                    lemma_lookup_update(
                        old_self.entries@,
                        i as int,
                        (self.entries@[i as int].0, new_obj),
                    );
                }
            },
            None => {
                let kc = clone_bytes(key);
                let ghost prev = self.entries@;
                self.entries.push((kc, new_obj));
                proof {
                    lemma_lookup_push(prev, prev.push((kc, new_obj)).last());
                    assert(self.entries@ =~= prev.push(prev.push((kc, new_obj)).last()));
                }
            },
        }
        Ok(added)
    }

    /// SREM: remove members from a live set; how many were present. The key
    /// is removed when the set empties; a missing or expired key counts
    /// nothing. Fails on a live value of another type.
    #[verifier::loop_isolation(false)]
    pub fn srem(&mut self, key: &Vec<u8>, members: Vec<Vec<u8>>, now: u64) -> (r: Result<
        i64,
        Vec<u8>,
    >)
        requires
            old(self).wf(),
            members@.len() <= i64::MAX,
        ensures
            final(self).wf(),
            forall|k2: Seq<u8>|
                k2 != key@ ==> #[trigger] final(self).spec_entry(k2) == old(self).spec_entry(k2),
            match r {
                Ok(n) => match old(self).spec_get(key@, now) {
                    Some(VModel::MSet(base)) => ({
                        let out = spec_srem(base, seq_views(members@));
                        &&& n == out.1
                        &&& final(self).spec_entry(key@) == if out.0.len() == 0 {
                            None::<(Option<u64>, VModel)>
                        } else {
                            Some(
                                (entry_expiry(old(self).spec_entry(key@)), VModel::MSet(out.0)),
                            )
                        }
                    }),
                    None => n == 0 && final(self).entries@ == old(self).entries@,
                    Some(_) => false,
                },
                Err(e) => ({
                    &&& old(self).spec_get(key@, now) matches Some(v) && !(v is MSet)
                    &&& e@ == spec_not_set()
                    &&& final(self).entries@ == old(self).entries@
                }),
            },
    {
        let ghost old_self = *self;
        let i = match self.find_idx(key) {
            None => {
                return Ok(0);
            },
            Some(i) => i,
        };
        {
            let o = &self.entries[i].1;
            if !obj_live(o, now) {
                return Ok(0);
            }
            match &o.data {
                RedisDataType::SetVal(_) => {},
                _ => {
                    return Err(not_set());
                },
            }
        }
        let (k, o) = self.entries.remove(i);
        let RedisObject { expires_at, data } = o;
        let mut set = match data {
            RedisDataType::SetVal(sv) => sv,
            _ => {
                proof {
                    assert(false);
                }
                Vec::new()
            },
        };
        let ghost base = seq_views(set@);
        let ghost ms = seq_views(members@);
        proof {
            assert forall|a: int, b: int| 0 <= a < b < base.len() implies base[a] != base[b] by {
                assert(base[a] == set@[a]@);
                assert(base[b] == set@[b]@);
            }
            assert(unique_views_abs(base));
        }
        let mut rest = members;
        let mut removed: i64 = 0;
        let ghost n = ms.len();
        while rest.len() > 0
            invariant
                seq_views(rest@) =~= ms.skip(n - rest@.len()),
                rest@.len() <= n,
                n <= i64::MAX,
                0 <= removed <= n - rest@.len(),
                (seq_views(set@), removed as int) == spec_srem(base, ms.take(n - rest@.len())),
                unique_views_abs(base),
                unique_views_abs(seq_views(set@)),
            decreases rest@.len(),
        {
            let ghost done = n - rest@.len();
            let ghost prer = rest@;
            let m = rest.remove(0);
            proof {
                assert(seq_views(prer)[0] == m@);
                assert(ms.skip(done)[0] == ms[done]);
                assert(seq_views(rest@) =~= seq_views(prer).drop_first());
                assert(seq_views(prer).drop_first() =~= ms.skip(done + 1));
                assert(ms.take(done + 1).drop_last() =~= ms.take(done));
                assert(ms.take(done + 1).last() == ms[done]);
            }
            match find_member(&set, &m) {
                Some(j) => {
                    let ghost pres = set@;
                    proof {
                        let sv = seq_views(pres);
                        assert(sv[j as int] == pres[j as int]@);
                        assert(sv[j as int] == ms[done]);
                        let jj = sv.index_of(ms[done]);
                        assert(sv.contains(ms[done])) by {
                            assert(sv[j as int] == ms[done]);
                        }
                        assert(0 <= jj < sv.len() && sv[jj] == ms[done]);
                        if jj != j as int {
                            assert(sv[jj] != sv[j as int]);
                        }
                        assert(jj == j as int);
                        lemma_srem_wf(base, ms.take(done + 1));
                    }
                    set.remove(j);
                    removed = removed + 1;
                    proof {
                        assert forall|x: int| 0 <= x < set@.len() implies seq_views(set@)[x]
                            == seq_views(pres).remove(j as int)[x] by {
                            assert(seq_views(set@)[x] == set@[x]@);
                            if x < j {
                                assert(set@[x] == pres[x]);
                                assert(seq_views(pres)[x] == pres[x]@);
                            } else {
                                assert(set@[x] == pres[x + 1]);
                                assert(seq_views(pres)[x + 1] == pres[x + 1]@);
                            }
                        }
                        assert(seq_views(set@) =~= seq_views(pres).remove(j as int));
                    }
                },
                None => {
                    proof {
                        lemma_srem_wf(base, ms.take(done + 1));
                    }
                },
            }
        }
        proof {
            assert(ms.take(n as int) =~= ms);
            lemma_lookup_remove(old_self.entries@, i as int);
            lemma_srem_wf(base, ms);
            assert forall|a: int, b: int| 0 <= a < b < set@.len() implies (set@[a])@ != (
            set@[b])@ by {
                assert(seq_views(set@)[a] == set@[a]@);
                assert(seq_views(set@)[b] == set@[b]@);
            }
            assert(unique_views(set@));
            assert(set@.len() == seq_views(set@).len());
        }
        if set.len() == 0 {
            let _ = k;
            let _ = expires_at;
            Ok(removed)
        } else {
            let new_obj = RedisObject { expires_at, data: RedisDataType::SetVal(set) };
            self.entries.insert(i, (k, new_obj));
            proof {
                assert(self.entries@ =~= old_self.entries@.update(
                    i as int,
                    (self.entries@[i as int].0, new_obj),
                ));
                lemma_lookup_update(
                    old_self.entries@,
                    i as int,
                    (self.entries@[i as int].0, new_obj),
                );
            }
            Ok(removed)
        }
    }

    /// SCARD: the number of members; 0 for a missing or expired key. Fails on
    /// a live value of another type.
    pub fn scard(&self, key: &Vec<u8>, now: u64) -> (r: Result<i64, Vec<u8>>)
        ensures
            match r {
                Ok(n) => match self.spec_get(key@, now) {
                    Some(VModel::MSet(s)) => n == if s.len() <= i64::MAX {
                        s.len() as int
                    } else {
                        0
                    },
                    None => n == 0,
                    Some(_) => false,
                },
                Err(e) => (self.spec_get(key@, now) matches Some(v) && !(v is MSet)) && e@
                    == spec_not_set(),
            },
    {
        match self.find_idx(key) {
            None => Ok(0),
            Some(i) => {
                let o = &self.entries[i].1;
                if !obj_live(o, now) {
                    return Ok(0);
                }
                match &o.data {
                    RedisDataType::SetVal(sv) => {
                        let nlen = sv.len();
                        if nlen as u64 <= 0x7FFFFFFFFFFFFFFFu64 {
                            Ok(nlen as i64)
                        } else {
                            Ok(0)
                        }
                    },
                    _ => Err(not_set()),
                }
            },
        }
    }

    /// SMEMBERS: all members; empty for a missing or expired key. Fails on a
    /// live value of another type.
    #[verifier::loop_isolation(false)]
    pub fn smembers(&self, key: &Vec<u8>, now: u64) -> (r: Result<Vec<Vec<u8>>, Vec<u8>>)
        ensures
            match r {
                Ok(out) => match self.spec_get(key@, now) {
                    Some(VModel::MSet(s)) => seq_views(out@) == s,
                    None => out@.len() == 0,
                    Some(_) => false,
                },
                Err(e) => (self.spec_get(key@, now) matches Some(v) && !(v is MSet)) && e@
                    == spec_not_set(),
            },
    {
        match self.find_idx(key) {
            None => Ok(Vec::new()),
            Some(i) => {
                let o = &self.entries[i].1;
                if !obj_live(o, now) {
                    return Ok(Vec::new());
                }
                match &o.data {
                    RedisDataType::SetVal(sv) => {
                        let mut out: Vec<Vec<u8>> = Vec::new();
                        let mut j: usize = 0;
                        while j < sv.len()
                            invariant
                                0 <= j <= sv@.len(),
                                seq_views(out@) =~= seq_views(sv@).take(j as int),
                            decreases sv@.len() - j,
                        {
                            out.push(clone_bytes(&sv[j]));
                            proof {
                                assert(seq_views(out@) =~= seq_views(sv@).take(j as int + 1));
                            }
                            j = j + 1;
                        }
                        proof {
                            assert(seq_views(sv@).take(sv@.len() as int) =~= seq_views(sv@));
                        }
                        Ok(out)
                    },
                    _ => Err(not_set()),
                }
            },
        }
    }

    /// SISMEMBER: whether the member is in the set; false for a missing or
    /// expired key. Fails on a live value of another type.
    pub fn sismember(&self, key: &Vec<u8>, member: &Vec<u8>, now: u64) -> (r: Result<
        bool,
        Vec<u8>,
    >)
        ensures
            match r {
                Ok(b) => match self.spec_get(key@, now) {
                    Some(VModel::MSet(s)) => b == seq_contains(s, member@),
                    None => b == false,
                    Some(_) => false,
                },
                Err(e) => (self.spec_get(key@, now) matches Some(v) && !(v is MSet)) && e@
                    == spec_not_set(),
            },
    {
        match self.find_idx(key) {
            None => Ok(false),
            Some(i) => {
                let o = &self.entries[i].1;
                if !obj_live(o, now) {
                    return Ok(false);
                }
                match &o.data {
                    RedisDataType::SetVal(sv) => {
                        match find_member(sv, member) {
                            Some(_) => Ok(true),
                            None => Ok(false),
                        }
                    },
                    _ => Err(not_set()),
                }
            },
        }
    }
}

/// Adding members preserves uniqueness and never shrinks the set; the count
/// stays within the number of members offered.
pub proof fn lemma_sadd_wf(s: Seq<Seq<u8>>, ms: Seq<Seq<u8>>)
    requires
        unique_views_abs(s),
    ensures
        unique_views_abs(spec_sadd(s, ms).0),
        spec_sadd(s, ms).0.len() >= s.len(),
        s.len() == 0 && ms.len() > 0 ==> spec_sadd(s, ms).0.len() >= 1,
        0 <= spec_sadd(s, ms).1 <= ms.len(),
    decreases ms.len(),
{
    if ms.len() > 0 {
        lemma_sadd_wf(s, ms.drop_last());
        let (s1, c) = spec_sadd(s, ms.drop_last());
        if !seq_contains(s1, ms.last()) {
            let t = s1.push(ms.last());
            assert forall|a: int, b: int| 0 <= a < b < t.len() implies t[a] != t[b] by {
                if b == s1.len() {
                    if t[a] == t[b] {
                        assert(s1[a] == ms.last());
                    }
                } else {
                    assert(t[a] == s1[a] && t[b] == s1[b]);
                }
            }
        }
    }
}

/// Removing members preserves uniqueness; the count stays within the number
/// of members offered.
pub proof fn lemma_srem_wf(s: Seq<Seq<u8>>, ms: Seq<Seq<u8>>)
    requires
        unique_views_abs(s),
    ensures
        unique_views_abs(spec_srem(s, ms).0),
        spec_srem(s, ms).0.len() <= s.len(),
        0 <= spec_srem(s, ms).1 <= ms.len(),
    decreases ms.len(),
{
    if ms.len() > 0 {
        lemma_srem_wf(s, ms.drop_last());
        let (s1, c) = spec_srem(s, ms.drop_last());
        if seq_contains(s1, ms.last()) {
            let j = s1.index_of(ms.last());
            assert(s1.contains(ms.last()));
            let t = s1.remove(j);
            assert forall|a: int, b: int| 0 <= a < b < t.len() implies t[a] != t[b] by {
                let amap = if a < j {
                    a
                } else {
                    a + 1
                };
                let bmap = if b < j {
                    b
                } else {
                    b + 1
                };
                assert(t[a] == s1[amap] && t[b] == s1[bmap]);
            }
        }
    }
}

/// Uniqueness of a run of abstract byte strings.
pub open spec fn unique_views_abs(s: Seq<Seq<u8>>) -> bool {
    forall|i: int, j: int| 0 <= i < j < s.len() ==> s[i] != s[j]
}

} // verus!
