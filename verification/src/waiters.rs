//! The blocking-pop queue: which waiter a list push serves.

use vstd::prelude::*;

use crate::list::ListDirection;

verus! {

/// A client blocked on a list, identified by a ticket the caller maps to its
/// reply channel.
pub struct BPopClient {
    pub id: u64,
    pub key: Vec<u8>,
    pub dir: ListDirection,
}

/// The queue model: `(ticket, key, direction, receiver closed)`.
pub open spec fn queue_model(q: Seq<BPopClient>, closed: Seq<bool>) -> Seq<
    (u64, Seq<u8>, ListDirection, bool),
> {
    Seq::new(
        q.len(),
        |i: int|
            if 0 <= i < q.len() && i < closed.len() {
                (q[i].id, q[i].key@, q[i].dir, closed[i])
            } else {
                (0u64, Seq::empty(), ListDirection::Left, false)
            },
    )
}

/// What serving a pushed key does, one waiter at a time from the front: a
/// closed waiter on the key is dropped; an open one takes one element in its
/// own direction and leaves; once the list is empty the rest stay.
pub open spec fn spec_serve(
    q: Seq<(u64, Seq<u8>, ListDirection, bool)>,
    key: Seq<u8>,
    list: Seq<Seq<u8>>,
) -> (Seq<(u64, Seq<u8>)>, Seq<(u64, Seq<u8>, ListDirection, bool)>, Seq<Seq<u8>>)
    decreases q.len(),
{
    if q.len() == 0 {
        (Seq::empty(), q, list)
    } else if q[0].1 != key {
        let r = spec_serve(q.drop_first(), key, list);
        (r.0, seq![q[0]] + r.1, r.2)
    } else if q[0].3 {
        spec_serve(q.drop_first(), key, list)
    } else if list.len() == 0 {
        (Seq::empty(), q, list)
    } else {
        let elem = match q[0].2 {
            ListDirection::Left => list[0],
            ListDirection::Right => list.last(),
        };
        let rest = match q[0].2 {
            ListDirection::Left => list.drop_first(),
            ListDirection::Right => list.drop_last(),
        };
        let r = spec_serve(q.drop_first(), key, rest);
        (seq![(q[0].0, elem)] + r.0, r.1, r.2)
    }
}

/// The FIFO law: with two open waiters on the same key, in that order, and a
/// single pushed element, only the first waiter is served, and the second
/// stays queued.
pub proof fn lemma_bpop_fifo(
    w1: (u64, Seq<u8>, ListDirection, bool),
    w2: (u64, Seq<u8>, ListDirection, bool),
    key: Seq<u8>,
    x: Seq<u8>,
)
    requires
        w1.1 == key,
        w2.1 == key,
        !w1.3,
        !w2.3,
    ensures
        ({
            let r = spec_serve(seq![w1, w2], key, seq![x]);
            &&& r.0 == seq![(w1.0, x)]
            &&& r.1 == seq![w2]
            &&& r.2 == Seq::<Seq<u8>>::empty()
        }),
{
    let q = seq![w1, w2];
    let l = seq![x];
    assert(q[0] == w1);
    assert(q.drop_first() =~= seq![w2]);
    assert(l[0] == x && l.last() == x);
    assert(l.drop_first() =~= Seq::<Seq<u8>>::empty());
    assert(l.drop_last() =~= Seq::<Seq<u8>>::empty());
    let rest = (match w1.2 {
        ListDirection::Left => l.drop_first(),
        ListDirection::Right => l.drop_last(),
    });
    assert(rest =~= Seq::<Seq<u8>>::empty());
    let inner = spec_serve(seq![w2], key, rest);
    assert(seq![w2][0] == w2);
    assert(inner.0 =~= Seq::<(u64, Seq<u8>)>::empty());
    assert(inner.1 == seq![w2]);
    let r = spec_serve(q, key, l);
    assert(r.0 =~= seq![(w1.0, x)] + inner.0);
    assert(seq![(w1.0, x)] + inner.0 =~= seq![(w1.0, x)]);
}

/// Queue entries without their receiver flag.
pub open spec fn queue_entries(s: Seq<BPopClient>) -> Seq<(u64, Seq<u8>, ListDirection)> {
    Seq::new(
        s.len(),
        |i: int|
            if 0 <= i < s.len() {
                (s[i].id, s[i].key@, s[i].dir)
            } else {
                (0u64, Seq::empty(), ListDirection::Left)
            },
    )
}

/// Drop the receiver flags from a model queue.
pub open spec fn strip_flags(s: Seq<(u64, Seq<u8>, ListDirection, bool)>) -> Seq<
    (u64, Seq<u8>, ListDirection),
> {
    Seq::new(
        s.len(),
        |i: int|
            if 0 <= i < s.len() {
                (s[i].0, s[i].1, s[i].2)
            } else {
                (0u64, Seq::empty(), ListDirection::Left)
            },
    )
}

/// The tickets and elements served.
pub open spec fn served_model(s: Seq<(u64, Vec<u8>)>) -> Seq<(u64, Seq<u8>)> {
    Seq::new(
        s.len(),
        |i: int|
            if 0 <= i < s.len() {
                (s[i].0, s[i].1@)
            } else {
                (0u64, Seq::empty())
            },
    )
}

/// Serve a pushed key: the executable counterpart of `spec_serve`. Waiters
/// are considered front to back; a closed one on the key is dropped, an open
/// one takes one element in its own direction, and once the list is empty
/// the remaining waiters stay queued in order.
#[verifier::loop_isolation(false)]
#[verifier::rlimit(100)]
pub fn bpop_serve(
    q: &mut Vec<BPopClient>,
    closed: &Vec<bool>,
    key: &Vec<u8>,
    list: &mut Vec<Vec<u8>>,
) -> (r: Vec<(u64, Vec<u8>)>)
    requires
        closed@.len() == old(q)@.len(),
    ensures
        ({
            let out = spec_serve(
                queue_model(old(q)@, closed@),
                key@,
                crate::store::seq_views(old(list)@),
            );
            &&& served_model(r@) == out.0
            &&& queue_entries(final(q)@) == strip_flags(out.1)
            &&& crate::store::seq_views(final(list)@) == out.2
        }),
{
    broadcast use crate::store::lemma_seq_views_index;

    let ghost qm = queue_model(old(q)@, closed@);
    let ghost l0 = crate::store::seq_views(old(list)@);
    let ghost full = spec_serve(qm, key@, l0);
    let total = closed.len();
    let mut res: Vec<(u64, Vec<u8>)> = Vec::new();
    let mut new_q: Vec<BPopClient> = Vec::new();
    let mut i: usize = 0;
    proof {
        assert(qm.skip(0) =~= qm);
        assert(served_model(res@) =~= Seq::<(u64, Seq<u8>)>::empty());
        assert(queue_entries(new_q@) =~= Seq::<(u64, Seq<u8>, ListDirection)>::empty());
    }
    while q.len() > 0
        invariant
            i + q@.len() == qm.len(),
            closed@.len() == qm.len(),
            total == qm.len(),
            i <= total,
            forall|x: int|
                0 <= x < q@.len() ==> #[trigger] qm[i + x] == (
                    q@[x].id,
                    q@[x].key@,
                    q@[x].dir,
                    closed@[i + x],
                ),
            ({
                let s = spec_serve(qm.skip(i as int), key@, crate::store::seq_views(list@));
                &&& full.0 =~= served_model(res@) + s.0
                &&& strip_flags(full.1) =~= queue_entries(new_q@) + strip_flags(s.1)
                &&& full.2 == s.2
            }),
        decreases q@.len(),
    {
        let ghost preq = q@;
        let ghost prel = crate::store::seq_views(list@);
        proof {
            assert(qm.skip(i as int)[0] == qm[i as int]);
            assert(qm.skip(i as int).drop_first() =~= qm.skip(i as int + 1));
            assert(qm[i as int] == (preq[0].id, preq[0].key@, preq[0].dir, closed@[i as int]));
        }
        let w = q.remove(0);
        proof {
            assert(forall|x: int| 0 <= x < q@.len() ==> #[trigger] q@[x] == preq[x + 1]);
            assert forall|x: int| 0 <= x < q@.len() implies #[trigger] qm[i + 1 + x] == (
                q@[x].id,
                q@[x].key@,
                q@[x].dir,
                closed@[i + 1 + x],
            ) by {
                assert(q@[x] == preq[x + 1]);
                assert(qm[i + (x + 1)] == (
                    preq[x + 1].id,
                    preq[x + 1].key@,
                    preq[x + 1].dir,
                    closed@[i + (x + 1)],
                ));
            }
        }
        let is_match = crate::util::bytes_eq(w.key.as_slice(), key.as_slice());
        if !is_match {
            let ghost pren = new_q@;
            new_q.push(w);
            proof {
                let s = spec_serve(qm.skip(i as int), key@, prel);
                let s2 = spec_serve(qm.skip(i as int + 1), key@, prel);
                assert(s.0 == s2.0 && s.1 == seq![qm[i as int]] + s2.1 && s.2 == s2.2);
                assert forall|x: int| 0 <= x < queue_entries(new_q@).len() implies
                    #[trigger] queue_entries(new_q@)[x] == (queue_entries(pren) + strip_flags(
                    seq![qm[i as int]],
                ))[x] by {
                    if x < pren.len() {
                        assert(new_q@[x] == pren[x]);
                    } else {
                        assert(new_q@[x] == w);
                    }
                }
                assert(queue_entries(new_q@) =~= queue_entries(pren) + strip_flags(
                    seq![qm[i as int]],
                ));
                assert(strip_flags(seq![qm[i as int]] + s2.1) =~= strip_flags(seq![qm[i as int]])
                    + strip_flags(s2.1));
            }
            i = i + 1;
        } else if closed[i] {
            // a closed waiter on the key is dropped
            proof {
                let s = spec_serve(qm.skip(i as int), key@, prel);
                let s2 = spec_serve(qm.skip(i as int + 1), key@, prel);
                assert(s == s2);
            }
            let _ = w;
            i = i + 1;
        } else if list.len() == 0 {
            // the list is drained: this waiter and all behind it stay
            proof {
                let s = spec_serve(qm.skip(i as int), key@, prel);
                assert(prel.len() == 0);
                assert(s.0 =~= Seq::<(u64, Seq<u8>)>::empty());
                assert(s.1 == qm.skip(i as int) && s.2 == prel);
                assert(full.0 =~= served_model(res@));
                assert(strip_flags(full.1) =~= queue_entries(new_q@) + strip_flags(
                    qm.skip(i as int),
                ));
                assert(full.2 == prel);
            }
            let ghost pren = new_q@;
            new_q.push(w);
            let ghost stop_i = i as int;
            let mut j: usize = i + 1;
            proof {
                assert forall|x: int| 0 <= x < queue_entries(new_q@).len() implies
                    #[trigger] queue_entries(new_q@)[x] == (queue_entries(pren) + strip_flags(
                    qm.skip(stop_i),
                ).take(1))[x] by {
                    if x < pren.len() {
                        assert(new_q@[x] == pren[x]);
                    } else {
                        assert(new_q@[x] == w);
                        assert(strip_flags(qm.skip(stop_i))[0] == (w.id, w.key@, w.dir));
                    }
                }
                assert(queue_entries(new_q@) =~= queue_entries(pren) + strip_flags(
                    qm.skip(stop_i),
                ).take(1));
            }
            while q.len() > 0
                invariant
                    stop_i == i as int,
                    j >= i + 1,
                    j <= total,
                    total == qm.len(),
                    j as int + q@.len() == qm.len(),
                    closed@.len() == qm.len(),
                    forall|x: int|
                        0 <= x < q@.len() ==> #[trigger] qm[j + x] == (
                            q@[x].id,
                            q@[x].key@,
                            q@[x].dir,
                            closed@[j + x],
                        ),
                    queue_entries(new_q@) =~= queue_entries(pren) + strip_flags(
                        qm.skip(stop_i),
                    ).take(j - stop_i),
                decreases q@.len(),
            {
                let ghost preq2 = q@;
                let w2 = q.remove(0);
                proof {
                    assert(forall|x: int| 0 <= x < q@.len() ==> #[trigger] q@[x] == preq2[x + 1]);
                    assert forall|x: int| 0 <= x < q@.len() implies #[trigger] qm[j + 1 + x] == (
                        q@[x].id,
                        q@[x].key@,
                        q@[x].dir,
                        closed@[j + 1 + x],
                    ) by {
                        assert(q@[x] == preq2[x + 1]);
                        assert(qm[j + (x + 1)] == (
                            preq2[x + 1].id,
                            preq2[x + 1].key@,
                            preq2[x + 1].dir,
                            closed@[j + (x + 1)],
                        ));
                    }
                }
                let ghost pren2 = new_q@;
                new_q.push(w2);
                proof {
                    assert(qm[j as int] == (w2.id, w2.key@, w2.dir, closed@[j as int]));
                    assert forall|x: int| 0 <= x < queue_entries(new_q@).len() implies
                        #[trigger] queue_entries(new_q@)[x] == (queue_entries(pren)
                            + strip_flags(qm.skip(stop_i)).take(j - stop_i + 1))[x] by {
                        if x < pren2.len() {
                            assert(new_q@[x] == pren2[x]);
                            assert(queue_entries(pren2)[x] == (pren2[x].id, pren2[x].key@, pren2[
                            x].dir));
                        } else {
                            assert(new_q@[x] == w2);
                            assert(strip_flags(qm.skip(stop_i))[j - stop_i] == (
                                w2.id,
                                w2.key@,
                                w2.dir,
                            ));
                        }
                    }
                    assert(queue_entries(new_q@) =~= queue_entries(pren) + strip_flags(
                        qm.skip(stop_i),
                    ).take(j - stop_i + 1));
                }
                j = j + 1;
            }
            proof {
                assert(strip_flags(qm.skip(stop_i)).take(j - stop_i) =~= strip_flags(
                    qm.skip(stop_i),
                ));
            }
            core::mem::swap(q, &mut new_q);
            return res;
        } else {
            // serve one element in the waiter's direction
            let e = match w.dir {
                ListDirection::Left => list.remove(0),
                ListDirection::Right => list.remove(list.len() - 1),
            };
            proof {
                match w.dir {
                    ListDirection::Left => {
                        assert(e@ == prel[0]);
                        assert(crate::store::seq_views(list@) =~= prel.drop_first());
                    },
                    ListDirection::Right => {
                        assert(e@ == prel.last());
                        assert(crate::store::seq_views(list@) =~= prel.drop_last());
                    },
                }
            }
            let ghost prer = res@;
            res.push((w.id, e));
            proof {
                let s = spec_serve(qm.skip(i as int), key@, prel);
                let rest_l = (match w.dir {
                    ListDirection::Left => prel.drop_first(),
                    ListDirection::Right => prel.drop_last(),
                });
                let s2 = spec_serve(qm.skip(i as int + 1), key@, rest_l);
                assert(s.0 == seq![(w.id, prel[0])] + s2.0 || s.0 == seq![(w.id, prel.last())]
                    + s2.0);
                assert forall|x: int| 0 <= x < served_model(res@).len() implies
                    #[trigger] served_model(res@)[x] == (served_model(prer).push((w.id, e@)))[x]
                    by {
                    if x < prer.len() {
                        assert(res@[x] == prer[x]);
                        assert(served_model(prer)[x] == (prer[x].0, prer[x].1@));
                    } else {
                        assert(res@[x] == (w.id, e));
                    }
                }
                assert(served_model(res@) =~= served_model(prer).push((w.id, e@)));
                match w.dir {
                    ListDirection::Left => {
                        assert(served_model(prer) + (seq![(w.id, prel[0])] + s2.0)
                            =~= served_model(res@) + s2.0);
                    },
                    ListDirection::Right => {
                        assert(served_model(prer) + (seq![(w.id, prel.last())] + s2.0)
                            =~= served_model(res@) + s2.0);
                    },
                }
            }
            let _ = w;
            i = i + 1;
        }
    }
    proof {
        assert(qm.skip(qm.len() as int).len() == 0);
        let s = spec_serve(qm.skip(i as int), key@, crate::store::seq_views(list@));
        assert(s.0 =~= Seq::<(u64, Seq<u8>)>::empty());
        assert(s.1 =~= Seq::<(u64, Seq<u8>, ListDirection, bool)>::empty());
        assert(strip_flags(s.1) =~= Seq::<(u64, Seq<u8>, ListDirection)>::empty());
        assert(served_model(res@) =~= full.0);
        assert(queue_entries(new_q@) =~= strip_flags(full.1));
    }
    core::mem::swap(q, &mut new_q);
    res
}


} // verus!
