//! The pub/sub hub: one step of the fan-out task.

use vstd::prelude::*;

use crate::resp::{RespV, RespValue};
use crate::set::seq_contains;
use crate::store::{clone_bytes, seq_views};

verus! {

/// A subscriber: its ticket, its channels, and whether its receiver is
/// still open.
pub struct PubSubClient {
    pub id: u64,
    pub channels: Vec<Vec<u8>>,
    pub open: bool,
}

/// An event handed to the hub.
pub enum PubSubEvent {
    /// Ping from a subscriber.
    Ping(u64),
    /// Subscribe a client to the given channels.
    Subscribe(u64, Vec<Vec<u8>>),
    /// Unsubscribe from the given channels, or all of them when none given.
    Unsubscribe(u64, Vec<Vec<u8>>),
    /// A published message: `(channel, payload)`.
    Message(Vec<u8>, Vec<u8>),
}

pub open spec fn s_subscribe_word() -> Seq<u8> {
    seq![115u8, 117u8, 98u8, 115u8, 99u8, 114u8, 105u8, 98u8, 101u8]
}

pub open spec fn s_unsubscribe_word() -> Seq<u8> {
    seq![117u8, 110u8, 115u8, 117u8, 98u8, 115u8, 99u8, 114u8, 105u8, 98u8, 101u8]
}

pub open spec fn s_message_word() -> Seq<u8> {
    seq![109u8, 101u8, 115u8, 115u8, 97u8, 103u8, 101u8]
}

pub open spec fn s_pong_word() -> Seq<u8> {
    seq![112u8, 111u8, 110u8, 103u8]
}

/// The confirmation frame for one (un)subscription: the word, the channel,
/// and the subscription count after it.
pub open spec fn sub_frame(word: Seq<u8>, ch: Seq<u8>, n: int) -> RespV {
    RespV::Arr(seq![RespV::Str(word), RespV::Str(ch), RespV::Int(n)])
}

/// The delivery frame for one message.
pub open spec fn msg_frame(ch: Seq<u8>, payload: Seq<u8>) -> RespV {
    RespV::Arr(seq![RespV::Str(s_message_word()), RespV::Str(ch), RespV::Str(payload)])
}

/// The pong frame.
pub open spec fn pong_reply() -> RespV {
    RespV::Arr(seq![RespV::Str(s_pong_word()), RespV::Str(Seq::empty())])
}

/// Subscribing to a run of channels in order: the channel set after, and the
/// confirmation frames with their counts.
pub open spec fn spec_subscribe(chans: Seq<Seq<u8>>, adds: Seq<Seq<u8>>) -> (
    Seq<Seq<u8>>,
    Seq<RespV>,
)
    decreases adds.len(),
{
    if adds.len() == 0 {
        (chans, Seq::empty())
    } else {
        let r = spec_subscribe(chans, adds.drop_last());
        let cs = if seq_contains(r.0, adds.last()) {
            r.0
        } else {
            r.0.push(adds.last())
        };
        (cs, r.1.push(sub_frame(s_subscribe_word(), adds.last(), cs.len() as int)))
    }
}

/// First index of `x` in `s`, or -1.
pub open spec fn str_index(s: Seq<Seq<u8>>, x: Seq<u8>) -> int
    decreases s.len(),
{
    if s.len() == 0 {
        -1
    } else if s[0] == x {
        0
    } else {
        let r = str_index(s.drop_first(), x);
        if r == -1 {
            -1
        } else {
            r + 1
        }
    }
}

pub proof fn lemma_str_index(s: Seq<Seq<u8>>, x: Seq<u8>)
    ensures
        str_index(s, x) == -1 ==> (forall|i: int| 0 <= i < s.len() ==> s[i] != x),
        str_index(s, x) != -1 ==> 0 <= str_index(s, x) < s.len() && s[str_index(s, x)] == x && (
        forall|i: int| 0 <= i < str_index(s, x) ==> s[i] != x),
    decreases s.len(),
{
    if s.len() > 0 {
        lemma_str_index(s.drop_first(), x);
        assert(forall|i: int| 0 <= i < s.len() - 1 ==> #[trigger] s.drop_first()[i] == s[i + 1]);
        if str_index(s, x) == -1 {
            assert forall|i: int| 0 <= i < s.len() implies s[i] != x by {
                if i > 0 {
                    assert(s.drop_first()[i - 1] == s[i]);
                }
            }
        } else if s[0] != x {
            assert(str_index(s.drop_first(), x) != -1);
            assert forall|i: int| 0 <= i < str_index(s, x) implies s[i] != x by {
                if i > 0 {
                    assert(s.drop_first()[i - 1] == s[i]);
                }
            }
        }
    }
}

/// Unsubscribing from a run of channels in order; a listed channel's first
/// occurrence leaves the set.
pub open spec fn spec_unsubscribe(chans: Seq<Seq<u8>>, dels: Seq<Seq<u8>>) -> (
    Seq<Seq<u8>>,
    Seq<RespV>,
)
    decreases dels.len(),
{
    if dels.len() == 0 {
        (chans, Seq::empty())
    } else {
        let r = spec_unsubscribe(chans, dels.drop_last());
        let ix = str_index(r.0, dels.last());
        let cs = if ix == -1 {
            r.0
        } else {
            r.0.remove(ix)
        };
        (cs, r.1.push(sub_frame(s_unsubscribe_word(), dels.last(), cs.len() as int)))
    }
}

/// Unsubscribing from every channel, front to back, with descending counts.
pub open spec fn spec_drain(chans: Seq<Seq<u8>>) -> Seq<RespV>
    decreases chans.len(),
{
    if chans.len() == 0 {
        Seq::empty()
    } else {
        seq![sub_frame(s_unsubscribe_word(), chans[0], chans.len() - 1)] + spec_drain(
            chans.drop_first(),
        )
    }
}

/// First index of the client holding `id`, or -1.
pub open spec fn client_index(cl: Seq<PubSubClient>, id: u64) -> int
    decreases cl.len(),
{
    if cl.len() == 0 {
        -1
    } else if cl[0].id == id {
        0
    } else {
        let r = client_index(cl.drop_first(), id);
        if r == -1 {
            -1
        } else {
            r + 1
        }
    }
}

pub proof fn lemma_client_index_at(cl: Seq<PubSubClient>, id: u64, i: int)
    requires
        0 <= i < cl.len(),
        cl[i].id == id,
        forall|j: int| 0 <= j < i ==> (#[trigger] cl[j]).id != id,
    ensures
        client_index(cl, id) == i,
    decreases i,
{
    if i > 0 {
        assert(forall|j: int| 0 <= j < cl.len() - 1 ==> #[trigger] cl.drop_first()[j] == cl[j + 1]);
        lemma_client_index_at(cl.drop_first(), id, i - 1);
    }
}

pub proof fn lemma_client_index_none(cl: Seq<PubSubClient>, id: u64)
    requires
        forall|j: int| 0 <= j < cl.len() ==> (#[trigger] cl[j]).id != id,
    ensures
        client_index(cl, id) == -1,
    decreases cl.len(),
{
    if cl.len() > 0 {
        assert(forall|j: int| 0 <= j < cl.len() - 1 ==> #[trigger] cl.drop_first()[j] == cl[j + 1]);
        lemma_client_index_none(cl.drop_first(), id);
    }
}

/// The outgoing frames alone.
pub open spec fn outs_frames(s: Seq<(u64, RespValue)>) -> Seq<RespV> {
    Seq::new(
        s.len(),
        |i: int|
            if 0 <= i < s.len() {
                s[i].1@
            } else {
                RespV::NilArr
            },
    )
}

/// The outgoing frames of one client's view.
pub open spec fn outs_model(s: Seq<(u64, RespValue)>) -> Seq<(u64, RespV)> {
    Seq::new(
        s.len(),
        |i: int|
            if 0 <= i < s.len() {
                (s[i].0, s[i].1@)
            } else {
                (0u64, RespV::NilArr)
            },
    )
}

/// Which subscribers a message reaches: the open clients, in hub order,
/// subscribed to the channel.
pub open spec fn spec_recipients(
    cl: Seq<PubSubClient>,
    ch: Seq<u8>,
    payload: Seq<u8>,
) -> Seq<(u64, RespV)>
    decreases cl.len(),
{
    if cl.len() == 0 {
        Seq::empty()
    } else {
        spec_recipients(cl.drop_last(), ch, payload) + (if cl.last().open && seq_contains(
            seq_views(cl.last().channels@),
            ch,
        ) {
            seq![(cl.last().id, msg_frame(ch, payload))]
        } else {
            Seq::empty()
        })
    }
}

fn word_frame(which: u8) -> (r: Vec<u8>)
    ensures
        which == 0 ==> r@ == s_subscribe_word(),
        which == 1 ==> r@ == s_unsubscribe_word(),
        which == 2 ==> r@ == s_message_word(),
        which >= 3 ==> r@ == s_pong_word(),
{
    let mut v: Vec<u8> = Vec::new();
    if which == 0 {
        v.push(115);
    v.push(117);
    v.push(98);
    v.push(115);
    v.push(99);
    v.push(114);
    v.push(105);
    v.push(98);
    v.push(101);
        assert(v@ =~= s_subscribe_word());
    } else if which == 1 {
        v.push(117);
    v.push(110);
    v.push(115);
    v.push(117);
    v.push(98);
    v.push(115);
    v.push(99);
    v.push(114);
    v.push(105);
    v.push(98);
    v.push(101);
        assert(v@ =~= s_unsubscribe_word());
    } else if which == 2 {
        v.push(109);
    v.push(101);
    v.push(115);
    v.push(115);
    v.push(97);
    v.push(103);
    v.push(101);
        assert(v@ =~= s_message_word());
    } else {
        v.push(112);
    v.push(111);
    v.push(110);
    v.push(103);
        assert(v@ =~= s_pong_word());
    }
    v
}

/// Build one confirmation frame.
fn make_sub_frame(which: u8, ch: &Vec<u8>, n: i64) -> (r: RespValue)
    requires
        which <= 1,
    ensures
        which == 0 ==> r@ == sub_frame(s_subscribe_word(), ch@, n as int),
        which == 1 ==> r@ == sub_frame(s_unsubscribe_word(), ch@, n as int),
{
    let mut items: Vec<RespValue> = Vec::new();
    items.push(RespValue::String(word_frame(which)));
    items.push(RespValue::String(clone_bytes(ch)));
    items.push(RespValue::Int(n));
    let out = RespValue::Array(items);
    proof {
        let a = out@->Arr_0;
        assert(a.len() == 3);
        assert(a[0] == items@[0]@ && a[1] == items@[1]@ && a[2] == items@[2]@);
        if which == 0 {
            assert(a =~= seq![
                RespV::Str(s_subscribe_word()),
                RespV::Str(ch@),
                RespV::Int(n as int),
            ]);
        } else {
            assert(a =~= seq![
                RespV::Str(s_unsubscribe_word()),
                RespV::Str(ch@),
                RespV::Int(n as int),
            ]);
        }
    }
    out
}

/// Build one delivery frame.
fn make_msg_frame(ch: &Vec<u8>, payload: &Vec<u8>) -> (r: RespValue)
    ensures
        r@ == msg_frame(ch@, payload@),
{
    let mut items: Vec<RespValue> = Vec::new();
    items.push(RespValue::String(word_frame(2)));
    items.push(RespValue::String(clone_bytes(ch)));
    items.push(RespValue::String(clone_bytes(payload)));
    let out = RespValue::Array(items);
    proof {
        let a = out@->Arr_0;
        assert(a.len() == 3);
        assert(a[0] == items@[0]@ && a[1] == items@[1]@ && a[2] == items@[2]@);
        assert(a =~= seq![RespV::Str(s_message_word()), RespV::Str(ch@), RespV::Str(payload@)]);
    }
    out
}

/// Index of the client holding `id`.
#[verifier::loop_isolation(false)]
fn find_client(clients: &Vec<PubSubClient>, id: u64) -> (r: Option<usize>)
    ensures
        match r {
            Some(i) => i < clients@.len() && clients@[i as int].id == id && (forall|j: int|
                0 <= j < i ==> (#[trigger] clients@[j]).id != id),
            None => forall|j: int| 0 <= j < clients@.len() ==> (#[trigger] clients@[j]).id != id,
        },
{
    let mut i: usize = 0;
    while i < clients.len()
        invariant
            0 <= i <= clients@.len(),
            forall|j: int| 0 <= j < i ==> (#[trigger] clients@[j]).id != id,
        decreases clients@.len() - i,
    {
        if clients[i].id == id {
            return Some(i);
        }
        i = i + 1;
    }
    None
}

/// One hub step: deliver the event, yielding the frames to send (each to
/// the subscriber holding the ticket) and, for a message, how many open
/// subscribers received it.
#[verifier::loop_isolation(false)]
#[verifier::rlimit(100)]
pub fn pubsub_step(clients: &mut Vec<PubSubClient>, ev: PubSubEvent) -> (r: (
    Vec<(u64, RespValue)>,
    i64,
))
    requires
        ev matches PubSubEvent::Subscribe(_, ref adds) ==> (forall|j: int|
            0 <= j < old(clients)@.len() ==> (#[trigger] old(clients)@[j]).channels@.len()
                + adds@.len() <= i64::MAX),
        ev is Unsubscribe ==> (forall|j: int|
            0 <= j < old(clients)@.len() ==> (#[trigger] old(clients)@[j]).channels@.len()
                <= i64::MAX),
    ensures
        match ev {
            PubSubEvent::Message(ref ch, ref payload) => ({
                &&& final(clients)@ == old(clients)@
                &&& outs_model(r.0@) == spec_recipients(old(clients)@, ch@, payload@)
                &&& r.1 == (if spec_recipients(old(clients)@, ch@, payload@).len() <= i64::MAX {
                    spec_recipients(old(clients)@, ch@, payload@).len() as int
                } else {
                    0
                })
            }),
            PubSubEvent::Subscribe(id, ref adds) => ({
                let ci = client_index(old(clients)@, id);
                &&& (ci == -1 ==> final(clients)@ == old(clients)@ && r.0@.len() == 0)
                &&& (ci != -1 ==> ({
                    let out = spec_subscribe(
                        crate::store::seq_views(old(clients)@[ci].channels@),
                        crate::store::seq_views(adds@),
                    );
                    &&& final(clients)@.len() == old(clients)@.len()
                    &&& (forall|j: int|
                        0 <= j < old(clients)@.len() && j != ci ==> #[trigger] final(clients)@[j]
                            == old(clients)@[j])
                    &&& final(clients)@[ci].id == id
                    &&& final(clients)@[ci].open == old(clients)@[ci].open
                    &&& crate::store::seq_views(final(clients)@[ci].channels@) == out.0
                    &&& outs_frames(r.0@) == out.1
                    &&& (forall|x: int| 0 <= x < r.0@.len() ==> (#[trigger] r.0@[x]).0 == id)
                }))
            }),
            PubSubEvent::Unsubscribe(id, ref dels) => ({
                let ci = client_index(old(clients)@, id);
                &&& (ci == -1 ==> final(clients)@ == old(clients)@ && r.0@.len() == 0)
                &&& (ci != -1 ==> ({
                    let base = crate::store::seq_views(old(clients)@[ci].channels@);
                    &&& final(clients)@.len() == old(clients)@.len()
                    &&& (forall|j: int|
                        0 <= j < old(clients)@.len() && j != ci ==> #[trigger] final(clients)@[j]
                            == old(clients)@[j])
                    &&& final(clients)@[ci].id == id
                    &&& final(clients)@[ci].open == old(clients)@[ci].open
                    &&& (dels@.len() == 0 ==> final(clients)@[ci].channels@.len() == 0
                        && outs_frames(r.0@) == spec_drain(base))
                    &&& (dels@.len() > 0 ==> ({
                        let out = spec_unsubscribe(base, crate::store::seq_views(dels@));
                        &&& crate::store::seq_views(final(clients)@[ci].channels@) == out.0
                        &&& outs_frames(r.0@) == out.1
                    }))
                    &&& (forall|x: int| 0 <= x < r.0@.len() ==> (#[trigger] r.0@[x]).0 == id)
                }))
            }),
            PubSubEvent::Ping(id) => final(clients)@ == old(clients)@ && ((exists|j: int|
                0 <= j < old(clients)@.len() && (#[trigger] old(clients)@[j]).id == id)
                ==> outs_model(r.0@) =~= seq![(id, pong_reply())]) && ((forall|j: int|
                0 <= j < old(clients)@.len() ==> (#[trigger] old(clients)@[j]).id != id)
                ==> r.0@.len() == 0),
            _ => true,
        },
{
    broadcast use crate::store::lemma_seq_views_index;

    let mut outs: Vec<(u64, RespValue)> = Vec::new();
    match ev {
        PubSubEvent::Ping(id) => {
            match find_client(clients, id) {
                Some(_) => {
                    let mut items: Vec<RespValue> = Vec::new();
                    items.push(RespValue::String(word_frame(3)));
                    items.push(RespValue::String(Vec::new()));
                    let frame = RespValue::Array(items);
                    proof {
                        let a = frame@->Arr_0;
                        assert(a.len() == 2);
                        assert(a[0] == items@[0]@ && a[1] == items@[1]@);
                        assert(a =~= seq![RespV::Str(s_pong_word()), RespV::Str(Seq::empty())]);
                    }
                    outs.push((id, frame));
                    proof {
                        assert(outs_model(outs@) =~= seq![(id, pong_reply())]);
                    }
                },
                None => {},
            }
            (outs, 0)
        },
        PubSubEvent::Subscribe(id, adds) => {
            match find_client(clients, id) {
                None => {
                    proof {
                        lemma_client_index_none(clients@, id);
                    }
                    (outs, 0)
                },
                Some(ci) => {
                    proof {
                        lemma_client_index_at(clients@, id, ci as int);
                    }
                    let ghost pre_clients = clients@;
                    let mut cl = clients.remove(ci);
                    let mut rest = adds;
                    let ghost am = seq_views(rest@);
                    let ghost base = seq_views(cl.channels@);
                    let ghost n = am.len();
                    while rest.len() > 0
                        invariant
                            rest@.len() <= n,
                            seq_views(rest@) =~= am.skip(n - rest@.len()),
                            cl.channels@.len() <= base.len() + (n - rest@.len()),
                            base.len() + n <= i64::MAX,
                            cl.id == pre_clients[ci as int].id,
                            cl.open == pre_clients[ci as int].open,
                            seq_views(cl.channels@) == spec_subscribe(
                                base,
                                am.take(n - rest@.len()),
                            ).0,
                            outs_frames(outs@) =~= spec_subscribe(
                                base,
                                am.take(n - rest@.len()),
                            ).1,
                            forall|x: int|
                                0 <= x < outs@.len() ==> (#[trigger] outs@[x]).0 == id,
                        decreases rest@.len(),
                    {
                        let ghost done = n - rest@.len();
                        let ghost prer = rest@;
                        let ch = rest.remove(0);
                        proof {
                            assert(seq_views(prer)[0] == ch@);
                            assert(am.skip(done)[0] == am[done]);
                            assert(seq_views(rest@) =~= seq_views(prer).drop_first());
                            assert(seq_views(prer).drop_first() =~= am.skip(done + 1));
                            assert(am.take(done + 1).drop_last() =~= am.take(done));
                            assert(am.take(done + 1).last() == am[done]);
                        }
                        let mut present = false;
                        let mut j: usize = 0;
                        while j < cl.channels.len()
                            invariant
                                0 <= j <= cl.channels@.len(),
                                present ==> seq_contains(seq_views(cl.channels@), ch@),
                                !present ==> (forall|x: int|
                                    0 <= x < j ==> seq_views(cl.channels@)[x] != ch@),
                            decreases cl.channels@.len() - j,
                        {
                            if crate::util::bytes_eq(
                                cl.channels[j].as_slice(),
                                ch.as_slice(),
                            ) {
                                proof {
                                    assert(seq_views(cl.channels@)[j as int] == ch@);
                                }
                                present = true;
                            }
                            j = j + 1;
                        }
                        proof {
                            if !present && seq_contains(seq_views(cl.channels@), ch@) {
                                let x = choose|x: int|
                                    0 <= x < seq_views(cl.channels@).len() && seq_views(
                                        cl.channels@,
                                    )[x] == ch@;
                                assert(false);
                            }
                        }
                        if !present {
                            let ghost prec = cl.channels@;
                            cl.channels.push(clone_bytes(&ch));
                            proof {
                                assert forall|x: int| 0 <= x < cl.channels@.len() implies
                                    #[trigger] seq_views(cl.channels@)[x] == seq_views(prec).push(
                                    am[done],
                                )[x] by {
                                    if x < prec.len() {
                                        assert(cl.channels@[x] == prec[x]);
                                        assert(seq_views(prec)[x] == prec[x]@);
                                    }
                                }
                                assert(seq_views(cl.channels@) =~= seq_views(prec).push(am[done]));
                            }
                        }
                        let count: i64 = if cl.channels.len() as u64 <= 0x7FFFFFFFFFFFFFFFu64 {
                            cl.channels.len() as i64
                        } else {
                            0
                        };
                        proof {
                            assert(seq_views(cl.channels@).len() == cl.channels@.len());
                        }
                        let ghost preo = outs@;
                        let frame = make_sub_frame(0, &ch, count);
                        outs.push((id, frame));
                        proof {
                            assert forall|x: int| 0 <= x < outs@.len() implies
                                #[trigger] outs_frames(outs@)[x] == (outs_frames(preo).push(
                                sub_frame(s_subscribe_word(), am[done], cl.channels@.len() as int),
                            ))[x] by {
                                if x < preo.len() {
                                    assert(outs@[x] == preo[x]);
                                    assert(outs_frames(preo)[x] == preo[x].1@);
                                }
                            }
                            assert(outs_frames(outs@) =~= outs_frames(preo).push(
                                sub_frame(s_subscribe_word(), am[done], cl.channels@.len() as int),
                            ));
                        }
                    }
                    proof {
                        assert(am.take(n as int) =~= am);
                    }
                    clients.insert(ci, cl);
                    proof {
                        assert(forall|j: int|
                            0 <= j < pre_clients.len() && j != ci as int
                                ==> #[trigger] clients@[j] == pre_clients[j]);
                        assert(clients@[ci as int] == cl);
                    }
                    (outs, 0)
                },
            }
        },
        PubSubEvent::Unsubscribe(id, dels) => {
            match find_client(clients, id) {
                None => {
                    proof {
                        lemma_client_index_none(clients@, id);
                    }
                    (outs, 0)
                },
                Some(ci) => {
                    proof {
                        lemma_client_index_at(clients@, id, ci as int);
                    }
                    let ghost pre_clients = clients@;
                    let mut cl = clients.remove(ci);
                    let ghost base = seq_views(cl.channels@);
                    if dels.len() == 0 {
                        // drain every channel, in order
                        proof {
                            assert(outs_frames(outs@) =~= Seq::<RespV>::empty());
                        }
                        while cl.channels.len() > 0
                            invariant
                                cl.id == pre_clients[ci as int].id,
                                cl.open == pre_clients[ci as int].open,
                                cl.channels@.len() <= i64::MAX,
                                outs_frames(outs@) + spec_drain(seq_views(cl.channels@))
                                    =~= spec_drain(base),
                                forall|x: int|
                                    0 <= x < outs@.len() ==> (#[trigger] outs@[x]).0 == id,
                            decreases cl.channels@.len(),
                        {
                            let ghost prec = seq_views(cl.channels@);
                            let ch = cl.channels.remove(0);
                            proof {
                                assert(prec[0] == ch@);
                                assert(seq_views(cl.channels@) =~= prec.drop_first());
                            }
                            let count: i64 = if cl.channels.len() as u64
                                <= 0x7FFFFFFFFFFFFFFFu64 {
                                cl.channels.len() as i64
                            } else {
                                0
                            };
                            proof {
                                assert(seq_views(cl.channels@).len() == cl.channels@.len());
                                assert(count as int == prec.len() - 1);
                            }
                            let frame = make_sub_frame(1, &ch, count);
                            let ghost preo = outs@;
                            outs.push((id, frame));
                            proof {
                                assert forall|x: int| 0 <= x < outs@.len() implies
                                    #[trigger] outs_frames(outs@)[x] == (outs_frames(preo).push(
                                    sub_frame(s_unsubscribe_word(), prec[0], prec.len() - 1),
                                ))[x] by {
                                    if x < preo.len() {
                                        assert(outs@[x] == preo[x]);
                                        assert(outs_frames(preo)[x] == preo[x].1@);
                                    }
                                }
                                assert(outs_frames(outs@) =~= outs_frames(preo).push(
                                    sub_frame(s_unsubscribe_word(), prec[0], prec.len() - 1),
                                ));
                                assert(spec_drain(prec) == seq![
                                    sub_frame(s_unsubscribe_word(), prec[0], prec.len() - 1),
                                ] + spec_drain(prec.drop_first()));
                                assert(outs_frames(preo) + spec_drain(prec) =~= outs_frames(outs@)
                                    + spec_drain(prec.drop_first()));
                            }
                        }
                        proof {
                            assert(seq_views(cl.channels@).len() == cl.channels@.len());
                            assert(spec_drain(seq_views(cl.channels@)) =~= Seq::<RespV>::empty());
                            assert(outs_frames(outs@) + Seq::<RespV>::empty() =~= outs_frames(
                                outs@,
                            ));
                        }
                    } else {
                        let mut rest = dels;
                        let ghost dm = seq_views(rest@);
                        let ghost n = dm.len();
                        proof {
                            assert(outs_frames(outs@) =~= Seq::<RespV>::empty());
                            assert(dm.take(0) =~= Seq::<Seq<u8>>::empty());
                        }
                        while rest.len() > 0
                            invariant
                                rest@.len() <= n,
                                seq_views(rest@) =~= dm.skip(n - rest@.len()),
                                cl.id == pre_clients[ci as int].id,
                                cl.open == pre_clients[ci as int].open,
                                cl.channels@.len() <= i64::MAX,
                                seq_views(cl.channels@) == spec_unsubscribe(
                                    base,
                                    dm.take(n - rest@.len()),
                                ).0,
                                outs_frames(outs@) =~= spec_unsubscribe(
                                    base,
                                    dm.take(n - rest@.len()),
                                ).1,
                                forall|x: int|
                                    0 <= x < outs@.len() ==> (#[trigger] outs@[x]).0 == id,
                            decreases rest@.len(),
                        {
                            let ghost done = n - rest@.len();
                            let ghost prer = rest@;
                            let ch = rest.remove(0);
                            proof {
                                assert(seq_views(prer)[0] == ch@);
                                assert(dm.skip(done)[0] == dm[done]);
                                assert(seq_views(rest@) =~= seq_views(prer).drop_first());
                                assert(seq_views(prer).drop_first() =~= dm.skip(done + 1));
                                assert(dm.take(done + 1).drop_last() =~= dm.take(done));
                                assert(dm.take(done + 1).last() == dm[done]);
                            }
                            let ghost prec = seq_views(cl.channels@);
                            let found = crate::set::find_member(&cl.channels, &ch);
                            proof {
                                lemma_str_index(prec, ch@);
                            }
                            match found {
                                Some(fi) => {
                                    proof {
                                        assert(prec[fi as int] == ch@);
                                        let ix = str_index(prec, ch@);
                                        assert(ix != -1) by {
                                            if ix == -1 {
                                                assert(prec[fi as int] != ch@);
                                            }
                                        }
                                        assert(prec[ix] == ch@);
                                        assert(ix == fi as int) by {
                                            if ix < fi as int {
                                                assert(prec[ix] != ch@);
                                            }
                                            if ix > fi as int {
                                                assert(prec[fi as int] != ch@);
                                            }
                                        }
                                    }
                                    let ghost prev = cl.channels@;
                                    cl.channels.remove(fi);
                                    proof {
                                        assert forall|x: int|
                                            0 <= x < cl.channels@.len() implies #[trigger] seq_views(
                                            cl.channels@,
                                        )[x] == prec.remove(fi as int)[x] by {
                                            if x < fi {
                                                assert(cl.channels@[x] == prev[x]);
                                                assert(seq_views(prev)[x] == prev[x]@);
                                            } else {
                                                assert(cl.channels@[x] == prev[x + 1]);
                                                assert(seq_views(prev)[x + 1] == prev[x + 1]@);
                                            }
                                        }
                                        assert(seq_views(cl.channels@) =~= prec.remove(fi as int));
                                    }
                                },
                                None => {
                                    proof {
                                        let ix = str_index(prec, ch@);
                                        assert(ix == -1) by {
                                            if ix != -1 {
                                                assert(prec[ix] == ch@);
                                                assert(crate::set::seq_contains(prec, ch@));
                                            }
                                        }
                                    }
                                },
                            }
                            let count: i64 = if cl.channels.len() as u64
                                <= 0x7FFFFFFFFFFFFFFFu64 {
                                cl.channels.len() as i64
                            } else {
                                0
                            };
                            proof {
                                assert(seq_views(cl.channels@).len() == cl.channels@.len());
                            }
                            let frame = make_sub_frame(1, &ch, count);
                            let ghost preo = outs@;
                            outs.push((id, frame));
                            proof {
                                assert forall|x: int| 0 <= x < outs@.len() implies
                                    #[trigger] outs_frames(outs@)[x] == (outs_frames(preo).push(
                                    sub_frame(
                                        s_unsubscribe_word(),
                                        dm[done],
                                        seq_views(cl.channels@).len() as int,
                                    ),
                                ))[x] by {
                                    if x < preo.len() {
                                        assert(outs@[x] == preo[x]);
                                        assert(outs_frames(preo)[x] == preo[x].1@);
                                    }
                                }
                                assert(outs_frames(outs@) =~= outs_frames(preo).push(
                                    sub_frame(
                                        s_unsubscribe_word(),
                                        dm[done],
                                        seq_views(cl.channels@).len() as int,
                                    ),
                                ));
                            }
                        }
                        proof {
                            assert(dm.take(n as int) =~= dm);
                        }
                    }
                    clients.insert(ci, cl);
                    proof {
                        assert(forall|j: int|
                            0 <= j < pre_clients.len() && j != ci as int
                                ==> #[trigger] clients@[j] == pre_clients[j]);
                        assert(clients@[ci as int] == cl);
                        assert(seq_views(cl.channels@).len() == cl.channels@.len());
                    }
                    (outs, 0)
                },
            }
        },
        PubSubEvent::Message(ch, payload) => {
            let ghost cm = clients@;
            let mut i: usize = 0;
            let mut count: usize = 0;
            proof {
                assert(outs_model(outs@) =~= spec_recipients(cm.take(0), ch@, payload@));
            }
            while i < clients.len()
                invariant
                    0 <= i <= cm.len(),
                    clients@ == cm,
                    outs_model(outs@) =~= spec_recipients(cm.take(i as int), ch@, payload@),
                    outs@.len() <= i,
                    count == outs@.len(),
                decreases cm.len() - i,
            {
                proof {
                    assert(cm.take(i as int + 1).drop_last() =~= cm.take(i as int));
                    assert(cm.take(i as int + 1).last() == cm[i as int]);
                }
                let cli = &clients[i];
                let mut subscribed = false;
                if cli.open {
                    let mut j: usize = 0;
                    while j < cli.channels.len()
                        invariant
                            0 <= j <= cli.channels@.len(),
                            subscribed ==> seq_contains(seq_views(cli.channels@), ch@),
                            !subscribed ==> (forall|x: int|
                                0 <= x < j ==> seq_views(cli.channels@)[x] != ch@),
                        decreases cli.channels@.len() - j,
                    {
                        if crate::util::bytes_eq(cli.channels[j].as_slice(), ch.as_slice()) {
                            proof {
                                assert(seq_views(cli.channels@)[j as int] == ch@);
                            }
                            subscribed = true;
                        }
                        j = j + 1;
                    }
                    proof {
                        if !subscribed && seq_contains(seq_views(cli.channels@), ch@) {
                            let x = choose|x: int|
                                0 <= x < seq_views(cli.channels@).len() && seq_views(
                                    cli.channels@,
                                )[x] == ch@;
                            assert(false);
                        }
                    }
                }
                if cli.open && subscribed {
                    let ghost preo = outs@;
                    let frame = make_msg_frame(&ch, &payload);
                    outs.push((cli.id, frame));
                    count = count + 1;
                    proof {
                        assert forall|x: int| 0 <= x < outs@.len() implies #[trigger] outs_model(
                            outs@,
                        )[x] == (outs_model(preo).push((cm[i as int].id, msg_frame(ch@, payload@))))[x]
                            by {
                            if x < preo.len() {
                                assert(outs@[x] == preo[x]);
                                assert(outs_model(preo)[x] == (preo[x].0, preo[x].1@));
                            }
                        }
                        assert(outs_model(outs@) =~= outs_model(preo).push(
                            (cm[i as int].id, msg_frame(ch@, payload@)),
                        ));
                        assert(outs_model(outs@) =~= spec_recipients(
                            cm.take(i as int + 1),
                            ch@,
                            payload@,
                        ));
                    }
                } else {
                    proof {
                        assert(outs_model(outs@) =~= spec_recipients(
                            cm.take(i as int + 1),
                            ch@,
                            payload@,
                        ));
                    }
                }
                i = i + 1;
            }
            proof {
                assert(cm.take(cm.len() as int) =~= cm);
                assert(outs_model(outs@).len() == outs@.len());
            }
            let reply: i64 = if count as u64 <= 0x7FFFFFFFFFFFFFFFu64 {
                count as i64
            } else {
                0
            };
            (outs, reply)
        },
    }
}

} // verus!
