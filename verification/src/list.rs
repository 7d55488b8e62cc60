//! Lists: ordered sequences of byte strings with head and tail access.

use vstd::prelude::*;

use crate::store::{
    clone_bytes, lemma_lookup_push, lemma_lookup_remove, lemma_lookup_update, seq_lookup,
    seq_views, unique_keys, MemoryStorage, RedisDataType, RedisObject, VModel,
};
use crate::store::obj_live;

verus! {

broadcast use crate::store::lemma_seq_views_index;

/// Direction for push/pop operations.
#[derive(Debug, Clone, Copy, PartialEq, Eq, Structural)]
pub enum ListDirection {
    /// Front of the list
    Left,
    /// Back of the list
    Right,
}

/// The expiration recorded in a stored-entry model.
pub open spec fn entry_expiry(e: Option<(Option<u64>, VModel)>) -> Option<u64> {
    match e {
        Some((x, _)) => x,
        None => None,
    }
}

/// The list after pushing `es` in order: a right push appends, a left push
/// inserts each element in turn at the head, reversing the argument order.
pub open spec fn spec_push_list(l: Seq<Seq<u8>>, es: Seq<Seq<u8>>, dir: ListDirection) -> Seq<
    Seq<u8>,
> {
    match dir {
        ListDirection::Right => l + es,
        ListDirection::Left => es.reverse() + l,
    }
}

/// What a pop takes and what remains: up to `count` elements from the chosen
/// end, in pop order.
pub open spec fn spec_pop_list(l: Seq<Seq<u8>>, dir: ListDirection, count: int) -> (
    Seq<Seq<u8>>,
    Seq<Seq<u8>>,
) {
    let n = if count < 0 {
        0
    } else if count > l.len() {
        l.len() as int
    } else {
        count
    };
    match dir {
        ListDirection::Left => (l.take(n), l.skip(n)),
        ListDirection::Right => (l.skip(l.len() - n).reverse(), l.take(l.len() - n)),
    }
}

/// The error returned when a list command meets another type.
pub open spec fn spec_not_list() -> Seq<u8> {
    seq![78u8, 111u8, 116u8, 32u8, 97u8, 32u8, 108u8, 105u8, 115u8, 116u8]
}

fn not_list() -> (r: Vec<u8>)
    ensures
        r@ == spec_not_list(),
{
    let mut v: Vec<u8> = Vec::new();
    v.push(78);
    v.push(111);
    v.push(116);
    v.push(32);
    v.push(97);
    v.push(32);
    v.push(108);
    v.push(105);
    v.push(115);
    v.push(116);
    assert(v@ =~= spec_not_list());
    v
}

/// LRANGE index translation: negative indices count from the end, the stop
/// index is clamped to the last element, and an empty range yields nothing.
pub open spec fn spec_range(s: Seq<Seq<u8>>, start: int, stop: int) -> Seq<Seq<u8>> {
    let len = s.len() as int;
    let b0 = if start < 0 {
        len + start
    } else {
        start
    };
    let b = if b0 < 0 {
        0
    } else {
        b0
    };
    let e0 = if stop < 0 {
        len + stop
    } else {
        stop
    };
    let e = if e0 > len - 1 {
        len - 1
    } else {
        e0
    };
    if b >= len || b > e {
        Seq::empty()
    } else {
        s.subrange(b, e + 1)
    }
}

impl MemoryStorage {
    /// LPUSH / RPUSH: append or prepend elements, creating the list if the
    /// key is missing or expired; the new length. Pushing onto a live value
    /// of another type fails and changes nothing.
    #[verifier::loop_isolation(false)]
    pub fn push(&mut self, key: &Vec<u8>, elems: Vec<Vec<u8>>, dir: ListDirection, now: u64) -> (r:
        Result<i64, Vec<u8>>)
        requires
            old(self).wf(),
            elems@.len() >= 1,
        ensures
            final(self).wf(),
            forall|k2: Seq<u8>|
                k2 != key@ ==> #[trigger] final(self).spec_entry(k2) == old(self).spec_entry(k2),
            match r {
                Ok(n) => ({
                    let base = match old(self).spec_get(key@, now) {
                        Some(VModel::MList(l)) => l,
                        _ => Seq::empty(),
                    };
                    let newl = spec_push_list(base, seq_views(elems@), dir);
                    let exp = if old(self).spec_get(key@, now) is Some {
                        entry_expiry(old(self).spec_entry(key@))
                    } else {
                        None
                    };
                    &&& !(old(self).spec_get(key@, now) matches Some(v) && !(v is MList))
                    &&& final(self).spec_entry(key@) == Some((exp, VModel::MList(newl)))
                    &&& n == if newl.len() <= i64::MAX {
                        newl.len() as int
                    } else {
                        0
                    }
                }),
                Err(e) => ({
                    &&& old(self).spec_get(key@, now) matches Some(v) && !(v is MList)
                    &&& e@ == spec_not_list()
                    &&& final(self).entries@ == old(self).entries@
                }),
            },
    {
        let ghost old_self = *self;
        let mut list: Vec<Vec<u8>> = Vec::new();
        let mut exp: Option<u64> = None;
        let mut at: Option<usize> = None;
        match self.find_idx(key) {
            None => {},
            Some(i) => {
                let o = &self.entries[i].1;
                if obj_live(o, now) {
                    match &o.data {
                        RedisDataType::List(_) => {},
                        _ => {
                            return Err(not_list());
                        },
                    }
                }
                at = Some(i);
            },
        }
        // Take over the existing entry's list if it is live; an expired
        // entry is replaced outright.
        let idx_opt = at;
        match idx_opt {
            Some(i) => {
                let (k, o) = self.entries.remove(i);
                let live_now = obj_live(&o, now);
                let RedisObject { expires_at, data } = o;
                if live_now {
                    exp = expires_at;
                    match data {
                        RedisDataType::List(l) => {
                            list = l;
                        },
                        _ => {
                            proof {
                                assert(false);
                            }
                        },
                    }
                }
                let _ = k;
            },
            None => {},
        }
        let ghost base = seq_views(list@);
        let ghost es = seq_views(elems@);
        let mut rest = elems;
        match dir {
            ListDirection::Right => {
                let ghost n = es.len();
                while rest.len() > 0
                    invariant
                        seq_views(rest@) =~= es.skip(n - rest@.len()),
                        rest@.len() <= n,
                        seq_views(list@) =~= base + es.take(n - rest@.len()),
                    decreases rest@.len(),
                {
                    let ghost done = n - rest@.len();
                    let ghost pre = rest@;
                    let e = rest.remove(0);
                    proof {
                        assert(seq_views(pre)[0] == e@);
                        assert(es.skip(done)[0] == es[done]);
                        assert(e@ == es[done]);
                        assert(seq_views(rest@) =~= seq_views(pre).drop_first());
                        assert(seq_views(pre).drop_first() =~= es.skip(done + 1));
                    }
                    let ghost prel = list@;
                    list.push(e);
                    proof {
                        assert(list@ == prel.push(e));
                        assert forall|x: int| 0 <= x < list@.len() implies seq_views(list@)[x] == (
                        base + es.take(done + 1))[x] by {
                            if x < prel.len() {
                                assert(seq_views(list@)[x] == list@[x]@);
                                assert(list@[x] == prel[x]);
                                assert(seq_views(prel)[x] == prel[x]@);
                                assert(seq_views(prel)[x] == (base + es.take(done))[x]);
                            } else {
                                assert(seq_views(list@)[x] == e@);
                            }
                        }
                        assert(seq_views(list@) =~= base + es.take(done + 1));
                    }
                }
                proof {
                    assert(es.take(n as int) =~= es);
                }
            },
            ListDirection::Left => {
                let ghost n = es.len();
                while rest.len() > 0
                    invariant
                        seq_views(rest@) =~= es.skip(n - rest@.len()),
                        rest@.len() <= n,
                        seq_views(list@) =~= es.take(n - rest@.len()).reverse() + base,
                    decreases rest@.len(),
                {
                    let ghost done = n - rest@.len();
                    let ghost pre = rest@;
                    let e = rest.remove(0);
                    proof {
                        assert(seq_views(pre)[0] == e@);
                        assert(es.skip(done)[0] == es[done]);
                        assert(e@ == es[done]);
                        assert(seq_views(rest@) =~= seq_views(pre).drop_first());
                        assert(seq_views(pre).drop_first() =~= es.skip(done + 1));
                    }
                    let ghost prel = list@;
                    list.insert(0, e);
                    proof {
                        assert(list@ == prel.insert(0, e));
                        assert forall|x: int| 0 <= x < list@.len() implies seq_views(list@)[x] == (
                        es.take(done + 1).reverse() + base)[x] by {
                            if x == 0 {
                                assert(seq_views(list@)[x] == e@);
                                assert(es.take(done + 1).reverse()[0] == es.take(done + 1)[done]);
                            } else {
                                assert(seq_views(list@)[x] == list@[x]@);
                                assert(list@[x] == prel[x - 1]);
                                assert(seq_views(prel)[x - 1] == prel[x - 1]@);
                                assert(seq_views(prel)[x - 1] == (es.take(done).reverse() + base)[x
                                    - 1]);
                                if x - 1 < done {
                                    assert(es.take(done).reverse()[x - 1] == es.take(done)[done - 1
                                        - (x - 1)]);
                                    assert(es.take(done + 1).reverse()[x] == es.take(done + 1)[done
                                        - x]);
                                }
                            }
                        }
                        assert(seq_views(list@) =~= es.take(done + 1).reverse() + base);
                    }
                }
                proof {
                    assert(es.take(n as int) =~= es);
                }
            },
        }
        let new_len = list.len();
        let obj = RedisObject { expires_at: exp, data: RedisDataType::List(list) };
        match idx_opt {
            Some(i) => {
                self.entries.insert(i, (clone_bytes(key), obj));
                proof {
                    assert(self.entries@ =~= old_self.entries@.update(
                        i as int,
                        (self.entries@[i as int].0, obj),
                    ));
                    lemma_lookup_update(
                        old_self.entries@,
                        i as int,
                        (self.entries@[i as int].0, obj),
                    );
                }
            },
            None => {
                let kc = clone_bytes(key);
                let ghost prev = self.entries@;
                self.entries.push((kc, obj));
                proof {
                    lemma_lookup_push(prev, prev.push((kc, obj)).last());
                    assert(self.entries@ =~= prev.push(prev.push((kc, obj)).last()));
                }
            },
        }
        if new_len as u64 <= 0x7FFFFFFFFFFFFFFFu64 {
            Ok(new_len as i64)
        } else {
            Ok(0)
        }
    }

    /// LLEN: the list length, or 0 for a missing key or a value of another
    /// type.
    pub fn llen(&self, key: &Vec<u8>, now: u64) -> (r: i64)
        ensures
            r == match self.spec_get(key@, now) {
                Some(VModel::MList(l)) => if l.len() <= i64::MAX {
                    l.len() as int
                } else {
                    0
                },
                _ => 0,
            },
    {
        match self.find_idx(key) {
            None => 0,
            Some(i) => {
                let o = &self.entries[i].1;
                if !obj_live(o, now) {
                    return 0;
                }
                match &o.data {
                    RedisDataType::List(l) => {
                        let n = l.len();
                        if n as u64 <= 0x7FFFFFFFFFFFFFFFu64 {
                            n as i64
                        } else {
                            0
                        }
                    },
                    _ => 0,
                }
            },
        }
    }

    /// LRANGE: the elements in the translated index window, empty for a
    /// missing key or a value of another type.
    #[verifier::loop_isolation(false)]
    pub fn lrange(&self, key: &Vec<u8>, start: i64, stop: i64, now: u64) -> (r: Vec<Vec<u8>>)
        ensures
            seq_views(r@) == match self.spec_get(key@, now) {
                Some(VModel::MList(l)) => spec_range(l, start as int, stop as int),
                _ => Seq::<Seq<u8>>::empty(),
            },
    {
        let empty: Vec<Vec<u8>> = Vec::new();
        assert(seq_views(empty@) =~= Seq::<Seq<u8>>::empty());
        match self.find_idx(key) {
            None => empty,
            Some(i) => {
                let o = &self.entries[i].1;
                if !obj_live(o, now) {
                    return empty;
                }
                match &o.data {
                    RedisDataType::List(l) => range_of(l, start, stop),
                    _ => empty,
                }
            },
        }
    }

    /// LPOP / RPOP: pop up to `count` elements from the chosen end; the key
    /// is removed once the list empties. Nothing for a missing key, an
    /// expired entry, or a value of another type.
    #[verifier::loop_isolation(false)]
    pub fn pop(&mut self, key: &Vec<u8>, dir: ListDirection, count: i64, now: u64) -> (r: Option<
        Vec<Vec<u8>>,
    >)
        requires
            old(self).wf(),
        ensures
            final(self).wf(),
            forall|k2: Seq<u8>|
                k2 != key@ ==> #[trigger] final(self).spec_entry(k2) == old(self).spec_entry(k2),
            match r {
                Some(taken) => ({
                    let l = match old(self).spec_get(key@, now) {
                        Some(VModel::MList(l)) => l,
                        _ => Seq::empty(),
                    };
                    let out = spec_pop_list(l, dir, count as int);
                    &&& old(self).spec_get(key@, now) matches Some(VModel::MList(_))
                    &&& seq_views(taken@) == out.0
                    &&& final(self).spec_entry(key@) == if out.1.len() == 0 {
                        None::<(Option<u64>, VModel)>
                    } else {
                        Some(
                            (entry_expiry(old(self).spec_entry(key@)), VModel::MList(out.1)),
                        )
                    }
                }),
                None => ({
                    &&& !(old(self).spec_get(key@, now) matches Some(VModel::MList(_)))
                    &&& final(self).entries@ == old(self).entries@
                }),
            },
    {
        let ghost old_self = *self;
        let i = match self.find_idx(key) {
            None => {
                return None;
            },
            Some(i) => i,
        };
        {
            let o = &self.entries[i].1;
            if !obj_live(o, now) {
                return None;
            }
            match &o.data {
                RedisDataType::List(_) => {},
                _ => {
                    return None;
                },
            }
        }
        let (k, o) = self.entries.remove(i);
        let RedisObject { expires_at, data } = o;
        let mut list = match data {
            RedisDataType::List(l) => l,
            _ => {
                proof {
                    assert(false);
                }
                Vec::new()
            },
        };
        let ghost l0 = seq_views(list@);
        let mut taken: Vec<Vec<u8>> = Vec::new();
        let mut j: i64 = 0;
        let ghost spec_n = (if count < 0 {
            0int
        } else if count > l0.len() {
            l0.len() as int
        } else {
            count as int
        });
        while j < count && list.len() > 0
            invariant
                0 <= j,
                j <= count || count < 0,
                count >= 0 ==> j <= spec_n,
                count < 0 ==> j == 0,
                taken@.len() == j,
                j <= l0.len(),
                match dir {
                    ListDirection::Left => seq_views(taken@) =~= l0.take(j as int) && seq_views(
                        list@,
                    ) =~= l0.skip(j as int),
                    ListDirection::Right => seq_views(taken@) =~= l0.skip(
                        l0.len() - j,
                    ).reverse() && seq_views(list@) =~= l0.take(l0.len() - j),
                },
            decreases list@.len(),
        {
            match dir {
                ListDirection::Left => {
                    let ghost pre = list@;
                    let e = list.remove(0);
                    proof {
                        assert(seq_views(pre)[0] == e@);
                        assert(l0.skip(j as int)[0] == l0[j as int]);
                        assert(e@ == l0[j as int]);
                        assert(seq_views(list@) =~= seq_views(pre).drop_first());
                    }
                    taken.push(e);
                    proof {
                        assert(seq_views(taken@) =~= l0.take(j as int + 1));
                        assert(seq_views(list@) =~= l0.skip(j as int + 1));
                    }
                },
                ListDirection::Right => {
                    let ghost pre = list@;
                    let e = list.remove(list.len() - 1);
                    proof {
                        assert(seq_views(pre)[pre.len() - 1] == e@);
                        assert(l0.take(l0.len() - j)[l0.len() - j - 1] == l0[l0.len() - j - 1]);
                        assert(e@ == l0[l0.len() - j - 1]);
                        assert(seq_views(list@) =~= seq_views(pre).drop_last());
                    }
                    let ghost pret = taken@;
                    taken.push(e);
                    proof {
                        assert(taken@ == pret.push(e));
                        assert forall|x: int| 0 <= x < taken@.len() implies seq_views(taken@)[x]
                            == l0.skip(l0.len() - (j + 1)).reverse()[x] by {
                            let tgt = l0.skip(l0.len() - (j + 1)).reverse();
                            assert(tgt[x] == l0.skip(l0.len() - (j + 1))[j - x]);
                            assert(l0.skip(l0.len() - (j + 1))[j - x] == l0[l0.len() - 1 - x]);
                            if x < pret.len() {
                                assert(seq_views(taken@)[x] == taken@[x]@);
                                assert(taken@[x] == pret[x]);
                                assert(seq_views(pret)[x] == pret[x]@);
                                assert(seq_views(pret)[x] == l0.skip(l0.len() - j).reverse()[x]);
                                assert(l0.skip(l0.len() - j).reverse()[x] == l0.skip(
                                    l0.len() - j,
                                )[j - 1 - x]);
                                assert(l0.skip(l0.len() - j)[j - 1 - x] == l0[l0.len() - 1 - x]);
                            } else {
                                assert(seq_views(taken@)[x] == e@);
                            }
                        }
                        assert(seq_views(taken@) =~= l0.skip(l0.len() - (j + 1)).reverse());
                        assert(seq_views(list@) =~= l0.take(l0.len() - (j + 1)));
                    }
                },
            }
            j = j + 1;
        }
        proof {
            assert(j == spec_n || (j < spec_n && list@.len() == 0));
            if j < spec_n && list@.len() == 0 {
                match dir {
                    ListDirection::Left => {
                        assert(seq_views(list@).len() == l0.len() - j);
                        assert(false);
                    },
                    ListDirection::Right => {
                        assert(seq_views(list@).len() == l0.len() - j);
                        assert(false);
                    },
                }
            }
            lemma_lookup_remove(old_self.entries@, i as int);
        }
        if list.len() == 0 {
            // The entry stays removed.
            let _ = k;
            let _ = expires_at;
            Some(taken)
        } else {
            let obj = RedisObject { expires_at, data: RedisDataType::List(list) };
            self.entries.insert(i, (k, obj));
            proof {
                assert(self.entries@ =~= old_self.entries@.update(
                    i as int,
                    (self.entries@[i as int].0, obj),
                ));
                lemma_lookup_update(
                    old_self.entries@,
                    i as int,
                    (self.entries@[i as int].0, obj),
                );
            }
            Some(taken)
        }
    }
}

/// The LRANGE window of a list.
#[verifier::loop_isolation(false)]
fn range_of(l: &Vec<Vec<u8>>, start: i64, stop: i64) -> (r: Vec<Vec<u8>>)
    ensures
        seq_views(r@) == spec_range(seq_views(l@), start as int, stop as int),
{
    let len: i128 = l.len() as i128;
    let b0: i128 = if start < 0 {
        len + start as i128
    } else {
        start as i128
    };
    let b: i128 = if b0 < 0 {
        0
    } else {
        b0
    };
    let e0: i128 = if stop < 0 {
        len + stop as i128
    } else {
        stop as i128
    };
    let e: i128 = if e0 > len - 1 {
        len - 1
    } else {
        e0
    };
    let mut out: Vec<Vec<u8>> = Vec::new();
    if b >= len || b > e {
        proof {
            assert(seq_views(out@) =~= spec_range(seq_views(l@), start as int, stop as int));
        }
        return out;
    }
    let mut i: usize = b as usize;
    let stop_at: usize = e as usize;
    while i <= stop_at
        invariant
            b <= i,
            i <= stop_at + 1,
            stop_at < l@.len(),
            seq_views(out@) =~= seq_views(l@).subrange(b as int, i as int),
        decreases stop_at + 1 - i,
    {
        out.push(crate::store::clone_bytes(&l[i]));
        proof {
            assert(seq_views(out@) =~= seq_views(l@).subrange(b as int, i as int + 1));
        }
        i = i + 1;
    }
    proof {
        assert(seq_views(out@) =~= spec_range(seq_views(l@), start as int, stop as int));
    }
    out
}

} // verus!
