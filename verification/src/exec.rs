//! Command execution: run a typed command against the store and shape the
//! reply, the follow-up work, and the change count.

use vstd::prelude::*;

use crate::command::{Command, CommandV};
use crate::list::ListDirection;
use crate::resp::{RespV, RespValue};
use crate::sorted_set::ZAddEntry;
use crate::store::{clone_bytes, seq_views, MemoryStorage, VModel};
use crate::util::{dec_repr_u, format_u64};

verus! {

/// Server configuration handed to the executor.
pub struct Config {
    pub auth: Option<Vec<u8>>,
    pub rdb_dir: Vec<u8>,
    pub rdb_filename: Vec<u8>,
    pub persist_secs: u64,
    pub persist_changes: u64,
}

/// The possible outcomes of a command.
pub enum CommandResponse {
    /// An immediate reply frame.
    Value(RespValue),
    /// Block until a list push serves this client, or the timeout (0: wait
    /// forever) passes.
    BPopWait { key: Vec<u8>, dir: ListDirection, timeout_millis: u64 },
    /// Block until a stream past the given start ids has news.
    XReadWait { streams: Vec<(Vec<u8>, Vec<u8>)>, block_millis: u64 },
    /// Ask the hub to fan the message out and reply with the receiver count.
    PublishWait { channel: Vec<u8>, message: Vec<u8> },
    /// Enter subscribe mode on these channels.
    Subscribed { channels: Vec<Vec<u8>> },
    /// Enter a MULTI block.
    Transaction,
    /// Check the password at the connection layer.
    AuthCheck { pass: Vec<u8> },
}

/// Follow-up work: how many changes to count, and which waiter tasks to
/// poke.
pub struct Effects {
    pub changes: u64,
    pub notify_bpop: Option<Vec<u8>>,
    pub notify_xread: Option<Vec<u8>>,
}

/// An array frame of bulk strings.
pub open spec fn arr_of_strs(s: Seq<Seq<u8>>) -> RespV {
    RespV::Arr(
        Seq::new(
            s.len(),
            |i: int|
                if 0 <= i < s.len() {
                    RespV::Str(s[i])
                } else {
                    RespV::NilStr
                },
        ),
    )
}

/// The text of a stream id: `ms-seq` in decimal.
pub open spec fn id_text(ms: u64, sq: u64) -> Seq<u8> {
    dec_repr_u(ms as int) + seq![45u8] + dec_repr_u(sq as int)
}

/// A stream record frame: the id, then the flattened field-value pairs.
pub open spec fn record_frame(r: (u64, u64, Seq<(Seq<u8>, Seq<u8>)>)) -> RespV {
    RespV::Arr(
        seq![
            RespV::Str(id_text(r.0, r.1)),
            RespV::Arr(
                Seq::new(
                    r.2.len() * 2,
                    |i: int|
                        if 0 <= i < r.2.len() * 2 {
                            if i % 2 == 0 {
                                RespV::Str(r.2[i / 2].0)
                            } else {
                                RespV::Str(r.2[i / 2].1)
                            }
                        } else {
                            RespV::NilStr
                        },
                ),
            ),
        ],
    )
}

/// A run of record frames.
pub open spec fn records_frame(rs: Seq<(u64, u64, Seq<(Seq<u8>, Seq<u8>)>)>) -> Seq<RespV> {
    Seq::new(
        rs.len(),
        |i: int|
            if 0 <= i < rs.len() {
                record_frame(rs[i])
            } else {
                RespV::NilStr
            },
    )
}

/// The XREAD reply: per stream with news, its key and its record frames.
pub open spec fn xread_reply(rs: Seq<(Seq<u8>, Seq<(u64, u64, Seq<(Seq<u8>, Seq<u8>)>)>)>) -> RespV {
    RespV::Arr(
        Seq::new(
            rs.len(),
            |i: int|
                if 0 <= i < rs.len() {
                    RespV::Arr(seq![RespV::Str(rs[i].0), RespV::Arr(records_frame(rs[i].1))])
                } else {
                    RespV::NilStr
                },
        ),
    )
}

pub open spec fn s_pong() -> Seq<u8> {
    seq![80u8, 79u8, 78u8, 71u8]
}

pub open spec fn s_ok() -> Seq<u8> {
    seq![79u8, 75u8]
}

pub open spec fn s_exec_no_multi() -> Seq<u8> {
    seq![69u8, 82u8, 82u8, 32u8, 69u8, 88u8, 69u8, 67u8, 32u8, 119u8, 105u8, 116u8, 104u8, 111u8, 117u8, 116u8, 32u8, 77u8, 85u8, 76u8, 84u8, 73u8]
}

pub open spec fn s_discard_no_multi() -> Seq<u8> {
    seq![69u8, 82u8, 82u8, 32u8, 68u8, 73u8, 83u8, 67u8, 65u8, 82u8, 68u8, 32u8, 119u8, 105u8, 116u8, 104u8, 111u8, 117u8, 116u8, 32u8, 77u8, 85u8, 76u8, 84u8, 73u8]
}

pub open spec fn s_bad_param() -> Seq<u8> {
    seq![69u8, 82u8, 82u8, 32u8, 117u8, 110u8, 114u8, 101u8, 99u8, 111u8, 103u8, 110u8, 105u8, 122u8, 101u8, 100u8, 32u8, 112u8, 97u8, 114u8, 97u8, 109u8, 101u8, 116u8, 101u8, 114u8]
}

pub open spec fn s_dir() -> Seq<u8> {
    seq![100u8, 105u8, 114u8]
}

pub open spec fn s_dbfilename() -> Seq<u8> {
    seq![100u8, 98u8, 102u8, 105u8, 108u8, 101u8, 110u8, 97u8, 109u8, 101u8]
}

fn pong_frame() -> (r: RespValue)
    ensures
        r@ == RespV::Simple(s_pong()),
{
    let mut v: Vec<u8> = Vec::new();
    v.push(80);
    v.push(79);
    v.push(78);
    v.push(71);
    proof {
        assert(v@ =~= s_pong());
    }
    RespValue::SimpleString(v)
}

fn ok_frame() -> (r: RespValue)
    ensures
        r@ == RespV::Simple(s_ok()),
{
    let mut v: Vec<u8> = Vec::new();
    v.push(79);
    v.push(75);
    proof {
        assert(v@ =~= s_ok());
    }
    RespValue::SimpleString(v)
}

fn exec_no_multi() -> (r: RespValue)
    ensures
        r@ == RespV::Error(s_exec_no_multi()),
{
    let mut v: Vec<u8> = Vec::new();
    v.push(69);
    v.push(82);
    v.push(82);
    v.push(32);
    v.push(69);
    v.push(88);
    v.push(69);
    v.push(67);
    v.push(32);
    v.push(119);
    v.push(105);
    v.push(116);
    v.push(104);
    v.push(111);
    v.push(117);
    v.push(116);
    v.push(32);
    v.push(77);
    v.push(85);
    v.push(76);
    v.push(84);
    v.push(73);
    proof {
        assert(v@ =~= s_exec_no_multi());
    }
    RespValue::Error(v)
}

fn discard_no_multi() -> (r: RespValue)
    ensures
        r@ == RespV::Error(s_discard_no_multi()),
{
    let mut v: Vec<u8> = Vec::new();
    v.push(69);
    v.push(82);
    v.push(82);
    v.push(32);
    v.push(68);
    v.push(73);
    v.push(83);
    v.push(67);
    v.push(65);
    v.push(82);
    v.push(68);
    v.push(32);
    v.push(119);
    v.push(105);
    v.push(116);
    v.push(104);
    v.push(111);
    v.push(117);
    v.push(116);
    v.push(32);
    v.push(77);
    v.push(85);
    v.push(76);
    v.push(84);
    v.push(73);
    proof {
        assert(v@ =~= s_discard_no_multi());
    }
    RespValue::Error(v)
}

fn bad_param() -> (r: Vec<u8>)
    ensures
        r@ == s_bad_param(),
{
    let mut v: Vec<u8> = Vec::new();
    v.push(69);
    v.push(82);
    v.push(82);
    v.push(32);
    v.push(117);
    v.push(110);
    v.push(114);
    v.push(101);
    v.push(99);
    v.push(111);
    v.push(103);
    v.push(110);
    v.push(105);
    v.push(122);
    v.push(101);
    v.push(100);
    v.push(32);
    v.push(112);
    v.push(97);
    v.push(114);
    v.push(97);
    v.push(109);
    v.push(101);
    v.push(116);
    v.push(101);
    v.push(114);
    assert(v@ =~= s_bad_param());
    v
}

/// No follow-up work.
fn no_effects() -> (r: Effects)
    ensures
        r.changes == 0,
        r.notify_bpop is None,
        r.notify_xread is None,
{
    Effects { changes: 0, notify_bpop: None, notify_xread: None }
}

/// Count changes without notifications.
fn count_effects(n: u64) -> (r: Effects)
    ensures
        r.changes == n,
        r.notify_bpop is None,
        r.notify_xread is None,
{
    Effects { changes: n, notify_bpop: None, notify_xread: None }
}

/// An array frame of owned byte strings.
#[verifier::loop_isolation(false)]
fn strs_frame(items: Vec<Vec<u8>>) -> (r: RespValue)
    ensures
        r@ == arr_of_strs(seq_views(items@)),
{
    broadcast use crate::store::lemma_seq_views_index;

    let ghost target = arr_of_strs(seq_views(items@));
    let ghost n = items@.len();
    let mut vs: Vec<RespValue> = Vec::new();
    let mut rest = items;
    while rest.len() > 0
        invariant
            rest@.len() <= n,
            vs@.len() == n - rest@.len(),
            target matches RespV::Arr(tv) && tv.len() == n && (forall|i: int|
                0 <= i < vs@.len() ==> (#[trigger] vs@[i])@ == tv[i]) && (forall|i: int|
                0 <= i < rest@.len() ==> RespV::Str((#[trigger] rest@[i])@) == tv[vs@.len()
                    + i]),
        decreases rest@.len(),
    {
        let ghost prer = rest@;
        let x = rest.remove(0);
        let ghost prev = vs@;
        vs.push(RespValue::String(x));
        proof {
            assert(forall|i: int| 0 <= i < prev.len() ==> #[trigger] vs@[i] == prev[i]);
            assert(forall|i: int| 0 <= i < rest@.len() ==> #[trigger] rest@[i] == prer[i + 1]);
        }
    }
    let out = RespValue::Array(vs);
    proof {
        let a = out@->Arr_0;
        assert(out@ == RespV::Arr(a));
        let tv = target->Arr_0;
        assert forall|i: int| 0 <= i < a.len() implies a[i] == tv[i] by {
            assert(a[i] == vs@[i]@);
        }
        assert(a =~= tv);
    }
    out
}


} // verus!

verus! {

/// One stream record as a reply frame.
#[verifier::loop_isolation(false)]
fn record_to_frame(rec: &crate::stream::StreamRecord) -> (r: RespValue)
    ensures
        r@ == record_frame((rec.ms, rec.seq, crate::stream::fields_model(rec.fields@))),
{
    broadcast use crate::stream::lemma_fields_model_index;

    let mut idt = format_u64(rec.ms);
    idt.push(45);
    let mut seqt = format_u64(rec.seq);
    let mut i: usize = 0;
    while i < seqt.len()
        invariant
            0 <= i <= seqt@.len(),
            seqt@ == dec_repr_u(rec.seq as int),
            idt@ =~= dec_repr_u(rec.ms as int) + seq![45u8] + seqt@.take(i as int),
        decreases seqt@.len() - i,
    {
        idt.push(seqt[i]);
        proof {
            assert(idt@ =~= dec_repr_u(rec.ms as int) + seq![45u8] + seqt@.take(i as int + 1));
        }
        i = i + 1;
    }
    proof {
        assert(seqt@.take(seqt@.len() as int) =~= seqt@);
        assert(idt@ =~= id_text(rec.ms, rec.seq));
    }
    let ghost fm = crate::stream::fields_model(rec.fields@);
    let mut flat: Vec<RespValue> = Vec::new();
    let mut j: usize = 0;
    while j < rec.fields.len()
        invariant
            0 <= j <= rec.fields@.len(),
            flat@.len() == 2 * j,
            forall|x: int|
                0 <= x < flat@.len() ==> (#[trigger] flat@[x])@ == (if x % 2 == 0 {
                    RespV::Str(fm[x / 2].0)
                } else {
                    RespV::Str(fm[x / 2].1)
                }),
        decreases rec.fields@.len() - j,
    {
        let ghost pref = flat@;
        flat.push(RespValue::String(clone_bytes(&rec.fields[j].0)));
        flat.push(RespValue::String(clone_bytes(&rec.fields[j].1)));
        proof {
            assert(forall|x: int| 0 <= x < pref.len() ==> #[trigger] flat@[x] == pref[x]);
            assert(flat@[2 * j as int]@ == RespV::Str(fm[j as int].0));
            assert(flat@[2 * j as int + 1]@ == RespV::Str(fm[j as int].1));
        }
        j = j + 1;
    }
    let inner = RespValue::Array(flat);
    let mut outer: Vec<RespValue> = Vec::new();
    outer.push(RespValue::String(idt));
    outer.push(inner);
    let out = RespValue::Array(outer);
    proof {
        let a = out@->Arr_0;
        assert(out@ == RespV::Arr(a));
        let target = record_frame((rec.ms, rec.seq, fm));
        let tv = target->Arr_0;
        assert(a.len() == 2 && tv.len() == 2);
        assert(a[0] == outer@[0]@);
        assert(a[0] == RespV::Str(id_text(rec.ms, rec.seq)));
        assert(a[1] == outer@[1]@);
        let fi = a[1]->Arr_0;
        let ti = tv[1]->Arr_0;
        assert forall|x: int| 0 <= x < fi.len() implies fi[x] == ti[x] by {
            assert(fi[x] == flat@[x]@);
        }
        assert(fi =~= ti);
        assert(a =~= tv);
    }
    out
}

/// A run of records as reply frames.
#[verifier::loop_isolation(false)]
fn records_to_frames(recs: &Vec<crate::stream::StreamRecord>) -> (r: Vec<RespValue>)
    ensures
        crate::resp::views_of(r@) == records_frame(crate::stream::stream_model(recs@)),
{
    broadcast use crate::stream::lemma_stream_model_index;

    let ghost target = records_frame(crate::stream::stream_model(recs@));
    let mut out: Vec<RespValue> = Vec::new();
    let mut i: usize = 0;
    while i < recs.len()
        invariant
            0 <= i <= recs@.len(),
            out@.len() == i,
            forall|x: int| 0 <= x < i ==> (#[trigger] out@[x])@ == target[x],
        decreases recs@.len() - i,
    {
        let ghost preo = out@;
        let f = record_to_frame(&recs[i]);
        out.push(f);
        proof {
            assert(forall|x: int| 0 <= x < preo.len() ==> #[trigger] out@[x] == preo[x]);
            assert(out@[i as int]@ == target[i as int]);
        }
        i = i + 1;
    }
    proof {
        assert forall|x: int| 0 <= x < crate::resp::views_of(out@).len() implies
            #[trigger] crate::resp::views_of(out@)[x] == target[x] by {
            assert(crate::resp::views_of(out@)[x] == out@[x]@);
        }
        assert(crate::resp::views_of(out@) =~= target);
    }
    out
}

impl MemoryStorage {
    /// Execute a read command and shape its reply.
    #[verifier::rlimit(100)]
    #[verifier::spinoff_prover]
    pub fn execute_read(&self, cmd: &Command, config: &Config, now: u64) -> (r: Result<
        Option<RespValue>,
        Vec<u8>,
    >)
        requires
            self.wf(),
        ensures
            match cmd@ {
                CommandV::Get { key } => match r {
                    Ok(Some(v)) => v@ == (match self.spec_get(key, now) {
                        Some(VModel::MStr(b)) => RespV::Str(b),
                        _ => RespV::NilStr,
                    }),
                    _ => false,
                },
                CommandV::Type { key } => r matches Ok(Some(v)) && v@ == RespV::Simple(
                    crate::store::spec_kind(self.spec_get(key, now)),
                ),
                CommandV::Ttl { key } => r matches Ok(Some(v)) && v@ == RespV::Int(
                    crate::store::spec_ttl(self.spec_entry(key), now),
                ),
                CommandV::DbSize => r matches Ok(Some(v)) && v@ == RespV::Int(
                    if crate::store::live_filter(self.entries@, now).len() <= i64::MAX {
                        crate::store::live_filter(self.entries@, now).len() as int
                    } else {
                        0
                    },
                ),
                CommandV::Keys => r matches Ok(Some(v)) && v@ == arr_of_strs(
                    crate::store::keys_of(crate::store::live_filter(self.entries@, now)),
                ),
                CommandV::ConfigGet { param } => match r {
                    Ok(Some(v)) => (param == s_dir() && v@ == arr_of_strs(
                        seq![param, config.rdb_dir@],
                    )) || (param == s_dbfilename() && v@ == arr_of_strs(
                        seq![param, config.rdb_filename@],
                    )),
                    Err(e) => param != s_dir() && param != s_dbfilename() && e@ == s_bad_param(),
                    _ => false,
                },
                CommandV::LLen { key } => r matches Ok(Some(v)) && v@ == RespV::Int(
                    match self.spec_get(key, now) {
                        Some(VModel::MList(l)) => if l.len() <= i64::MAX {
                            l.len() as int
                        } else {
                            0
                        },
                        _ => 0,
                    },
                ),
                CommandV::LRange { key, start, stop } => r matches Ok(Some(v)) && v@
                    == arr_of_strs(
                    match self.spec_get(key, now) {
                        Some(VModel::MList(l)) => crate::list::spec_range(
                            l,
                            start,
                            stop,
                        ),
                        _ => Seq::<Seq<u8>>::empty(),
                    },
                ),
                _ => r matches Ok(None),
            },
    {
        match cmd {
            Command::Get { key } => {
                match self.get(key, now) {
                    Some(v) => Ok(Some(RespValue::String(v))),
                    None => Ok(Some(RespValue::NilString)),
                }
            },
            Command::Type { key } => Ok(Some(RespValue::SimpleString(self.kind(key, now)))),
            Command::Ttl { key } => Ok(Some(RespValue::Int(self.ttl(key, now)))),
            Command::DbSize => Ok(Some(RespValue::Int(self.size(now)))),
            Command::Keys => Ok(Some(strs_frame(self.keys(now)))),
            Command::ConfigGet { param } => {
                let dirlit = [100u8, 105u8, 114u8];
                let fnlit = [100u8, 98u8, 102u8, 105u8, 108u8, 101u8, 110u8, 97u8, 109u8, 101u8];
                if crate::util::bytes_eq(param.as_slice(), dirlit.as_slice()) {
                    let mut items: Vec<Vec<u8>> = Vec::new();
                    items.push(clone_bytes(param));
                    items.push(clone_bytes(&config.rdb_dir));
                    proof {
                        crate::store::lemma_seq_views_index(items@, 0);
                        crate::store::lemma_seq_views_index(items@, 1);
                        assert(seq_views(items@) =~= seq![param@, config.rdb_dir@]);
                    }
                    let f = strs_frame(items);
                    Ok(Some(f))
                } else if crate::util::bytes_eq(param.as_slice(), fnlit.as_slice()) {
                    let mut items: Vec<Vec<u8>> = Vec::new();
                    items.push(clone_bytes(param));
                    items.push(clone_bytes(&config.rdb_filename));
                    proof {
                        crate::store::lemma_seq_views_index(items@, 0);
                        crate::store::lemma_seq_views_index(items@, 1);
                        assert(seq_views(items@) =~= seq![param@, config.rdb_filename@]);
                    }
                    Ok(Some(strs_frame(items)))
                } else {
                    Err(bad_param())
                }
            },
            Command::LLen { key } => Ok(Some(RespValue::Int(self.llen(key, now)))),
            Command::LRange { key, start, stop } => Ok(
                Some(strs_frame(self.lrange(key, *start, *stop, now))),
            ),
            _ => Ok(None),
        }
    }
}

impl MemoryStorage {
    /// Execute a sorted-set or stream read command and shape its reply.
    #[verifier::rlimit(100)]
    pub fn execute_read_z(&self, cmd: &Command, now: u64) -> (r: Result<
        Option<RespValue>,
        Vec<u8>,
    >)
        requires
            self.wf(),
        ensures
            match cmd@ {
                CommandV::ZCard { key } => match r {
                    Ok(Some(v)) => match self.spec_get(key, now) {
                        Some(VModel::MZSet(sm, _)) => v@ == RespV::Int(
                            if sm.len() <= i64::MAX {
                                sm.len() as int
                            } else {
                                0
                            },
                        ),
                        None => v@ == RespV::Int(0),
                        Some(_) => false,
                    },
                    Err(e) => (self.spec_get(key, now) matches Some(w) && !(w is MZSet)) && e@
                        == crate::sorted_set::spec_not_zset(),
                    _ => false,
                },
                CommandV::ZScore { key, member } => match r {
                    Ok(Some(v)) => match self.spec_get(key, now) {
                        Some(VModel::MZSet(sm, _)) => (crate::sorted_set::z_find(sm, member) != -1
                            && v@ == RespV::Str(sm[crate::sorted_set::z_find(sm, member)].2)) || (
                        crate::sorted_set::z_find(sm, member) == -1 && v@ == RespV::NilStr),
                        None => v@ == RespV::NilStr,
                        Some(_) => false,
                    },
                    Err(e) => (self.spec_get(key, now) matches Some(w) && !(w is MZSet)) && e@
                        == crate::sorted_set::spec_not_zset(),
                    _ => false,
                },
                CommandV::ZRank { key, member } => match r {
                    Ok(Some(v)) => match self.spec_get(key, now) {
                        Some(VModel::MZSet(_, rm)) => (v@ matches RespV::Int(x) && 0 <= x
                            < rm.len() && rm[x].1 == member) || (v@ is NilStr && (!(exists|j: int|
                            0 <= j < rm.len() && (#[trigger] rm[j]).1 == member) || rm.len()
                            > i64::MAX)),
                        None => v@ == RespV::NilStr,
                        Some(_) => false,
                    },
                    Err(e) => (self.spec_get(key, now) matches Some(w) && !(w is MZSet)) && e@
                        == crate::sorted_set::spec_not_zset(),
                    _ => false,
                },
                CommandV::ZRange { key, start, stop } => match r {
                    Ok(Some(v)) => match self.spec_get(key, now) {
                        Some(VModel::MZSet(_, rm)) => v@ == arr_of_strs(
                            crate::list::spec_range(
                                crate::sorted_set::ranked_members(rm),
                                start,
                                stop,
                            ),
                        ),
                        None => v@ == arr_of_strs(Seq::empty()),
                        Some(_) => false,
                    },
                    Err(e) => (self.spec_get(key, now) matches Some(w) && !(w is MZSet)) && e@
                        == crate::sorted_set::spec_not_zset(),
                    _ => false,
                },
                _ => r matches Ok(None),
            },
    {
        match cmd {
            Command::ZCard { key } => {
                match self.zcard(key, now) {
                    Ok(n) => Ok(Some(RespValue::Int(n))),
                    Err(e) => Err(e),
                }
            },
            Command::ZScore { key, member } => {
                match self.zscore(key, member, now) {
                    Ok(Some(t)) => Ok(Some(RespValue::String(t))),
                    Ok(None) => Ok(Some(RespValue::NilString)),
                    Err(e) => Err(e),
                }
            },
            Command::ZRank { key, member } => {
                match self.zrank(key, member, now) {
                    Ok(Some(x)) => Ok(Some(RespValue::Int(x))),
                    Ok(None) => Ok(Some(RespValue::NilString)),
                    Err(e) => Err(e),
                }
            },
            Command::ZRange { key, start, stop } => {
                match self.zrange(key, *start, *stop, now) {
                    Ok(ms) => {
                        proof {
                            if self.spec_get(key@, now) is None {
                                assert(seq_views(ms@) =~= Seq::<Seq<u8>>::empty());
                            }
                        }
                        Ok(Some(strs_frame(ms)))
                    },
                    Err(e) => Err(e),
                }
            },
            _ => Ok(None),
        }
    }
}


impl MemoryStorage {
    /// Execute a set read command and shape its reply.
    #[verifier::rlimit(100)]
    pub fn execute_read_sets(&self, cmd: &Command, now: u64) -> (r: Result<Option<RespValue>, Vec<u8>>)
        requires
            self.wf(),
        ensures
            match cmd@ {
                CommandV::SCard { key } => match r {
                    Ok(Some(v)) => match self.spec_get(key, now) {
                        Some(VModel::MSet(s)) => v@ == RespV::Int(
                            if s.len() <= i64::MAX {
                                s.len() as int
                            } else {
                                0
                            },
                        ),
                        None => v@ == RespV::Int(0),
                        Some(_) => false,
                    },
                    Err(e) => (self.spec_get(key, now) matches Some(w) && !(w is MSet)) && e@
                        == crate::set::spec_not_set(),
                    _ => false,
                },
                CommandV::SMembers { key } => match r {
                    Ok(Some(v)) => match self.spec_get(key, now) {
                        Some(VModel::MSet(s)) => v@ == arr_of_strs(s),
                        None => v@ == arr_of_strs(Seq::empty()),
                        Some(_) => false,
                    },
                    Err(e) => (self.spec_get(key, now) matches Some(w) && !(w is MSet)) && e@
                        == crate::set::spec_not_set(),
                    _ => false,
                },
                CommandV::SIsMember { key, member } => match r {
                    Ok(Some(v)) => match self.spec_get(key, now) {
                        Some(VModel::MSet(s)) => v@ == RespV::Int(
                            if crate::set::seq_contains(s, member) {
                                1int
                            } else {
                                0int
                            },
                        ),
                        None => v@ == RespV::Int(0),
                        Some(_) => false,
                    },
                    Err(e) => (self.spec_get(key, now) matches Some(w) && !(w is MSet)) && e@
                        == crate::set::spec_not_set(),
                    _ => false,
                },
                _ => r matches Ok(None),
            },
    {
        match cmd {
            Command::SCard { key } => {
                match self.scard(key, now) {
                    Ok(n) => Ok(Some(RespValue::Int(n))),
                    Err(e) => Err(e),
                }
            },
            Command::SMembers { key } => {
                match self.smembers(key, now) {
                    Ok(ms) => {
                        proof {
                            if self.spec_get(key@, now) is None {
                                assert(seq_views(ms@) =~= Seq::<Seq<u8>>::empty());
                            }
                        }
                        Ok(Some(strs_frame(ms)))
                    },
                    Err(e) => Err(e),
                }
            },
            Command::SIsMember { key, member } => {
                match self.sismember(key, member, now) {
                    Ok(true) => Ok(Some(RespValue::Int(1))),
                    Ok(false) => Ok(Some(RespValue::Int(0))),
                    Err(e) => Err(e),
                }
            },
            _ => Ok(None),
        }
    }
}


impl MemoryStorage {
    /// Execute a stream read command and shape its reply.
    #[verifier::rlimit(100)]
    #[verifier::spinoff_prover]
    pub fn execute_read_streams(&self, cmd: &Command, now: u64) -> (r: Result<Option<RespValue>, Vec<u8>>)
        requires
            self.wf(),
        ensures
            match cmd@ {
                CommandV::XLen { key } => r matches Ok(Some(v)) && v@ == RespV::Int(
                    match self.spec_get(key, now) {
                        Some(VModel::MStream(sm)) => if sm.len() <= i64::MAX {
                            sm.len() as int
                        } else {
                            0
                        },
                        _ => 0,
                    },
                ),
                CommandV::XRange { key, start, end } => match r {
                    Ok(Some(v)) => ({
                        let lo = if start =~= seq![45u8] {
                            Some((0u64, 0u64))
                        } else {
                            crate::stream::spec_parse_plain_id(start, 0)
                        };
                        let hi = if end =~= seq![43u8] {
                            Some((u64::MAX, u64::MAX))
                        } else {
                            crate::stream::spec_parse_plain_id(end, u64::MAX)
                        };
                        lo is Some && hi is Some && v@ == RespV::Arr(
                            records_frame(
                                match self.spec_get(key, now) {
                                    Some(VModel::MStream(sm)) => crate::stream::spec_range_records(
                                        sm,
                                        lo->0,
                                        hi->0,
                                    ),
                                    _ => Seq::empty(),
                                },
                            ),
                        )
                    }),
                    Err(e) => ((if start =~= seq![45u8] {
                        Some((0u64, 0u64))
                    } else {
                        crate::stream::spec_parse_plain_id(start, 0)
                    }) is None || (if end =~= seq![43u8] {
                        Some((u64::MAX, u64::MAX))
                    } else {
                        crate::stream::spec_parse_plain_id(end, u64::MAX)
                    }) is None) && e@ == crate::stream::spec_invalid_id(),
                    _ => false,
                },
                _ => r matches Ok(None),
            },
    {
        match cmd {
            Command::XLen { key } => Ok(Some(RespValue::Int(self.xlen(key, now)))),
            Command::XRange { key, start, end } => {
                match self.xrange(key, start, end, now) {
                    Ok(recs) => {
                        let frames = records_to_frames(&recs);
                        let ghost fv = frames@;
                        let out = RespValue::Array(frames);
                        proof {
                            let a = out@->Arr_0;
                            assert forall|x: int| 0 <= x < a.len() implies a[x]
                                == crate::resp::views_of(fv)[x] by {
                                assert(a[x] == fv[x]@);
                                assert(crate::resp::views_of(fv)[x] == fv[x]@);
                            }
                            assert(a =~= crate::resp::views_of(fv));
                        }
                        Ok(Some(out))
                    },
                    Err(e) => Err(e),
                }
            },
            _ => Ok(None),
        }
    }
}


} // verus!

verus! {

/// The text of a stream id, as a fresh byte string.
#[verifier::loop_isolation(false)]
pub fn format_id(ms: u64, sq: u64) -> (r: Vec<u8>)
    ensures
        r@ == id_text(ms, sq),
{
    let mut idt = format_u64(ms);
    idt.push(45);
    let seqt = format_u64(sq);
    let mut i: usize = 0;
    while i < seqt.len()
        invariant
            0 <= i <= seqt@.len(),
            seqt@ == dec_repr_u(sq as int),
            idt@ =~= dec_repr_u(ms as int) + seq![45u8] + seqt@.take(i as int),
        decreases seqt@.len() - i,
    {
        idt.push(seqt[i]);
        proof {
            assert(idt@ =~= dec_repr_u(ms as int) + seq![45u8] + seqt@.take(i as int + 1));
        }
        i = i + 1;
    }
    proof {
        assert(seqt@.take(seqt@.len() as int) =~= seqt@);
        assert(idt@ =~= id_text(ms, sq));
    }
    idt
}

/// What checking a password decides.
pub enum AuthDecision {
    /// Reply +OK and mark the connection authenticated.
    Accept,
    /// Reply the WRONGPASS error and stay unauthenticated.
    WrongPass,
    /// Reply the NOAUTH error: authentication is required first.
    NeedAuth,
    /// No gate applies: run the command.
    Proceed,
}

pub open spec fn s_wrongpass() -> Seq<u8> {
    seq![87u8, 82u8, 79u8, 78u8, 71u8, 80u8, 65u8, 83u8, 83u8, 32u8, 105u8, 110u8, 118u8, 97u8, 108u8, 105u8, 100u8, 32u8, 112u8, 97u8, 115u8, 115u8, 119u8, 111u8, 114u8, 100u8]
}

pub open spec fn s_noauth() -> Seq<u8> {
    seq![78u8, 79u8, 65u8, 85u8, 84u8, 72u8, 32u8, 65u8, 117u8, 116u8, 104u8, 101u8, 110u8, 116u8, 105u8, 99u8, 97u8, 116u8, 105u8, 111u8, 110u8, 32u8, 114u8, 101u8, 113u8, 117u8, 105u8, 114u8, 101u8, 100u8]
}

/// The authentication gate: before a connection is authenticated only AUTH
/// is accepted, and the password must match the configured one byte for
/// byte.
pub fn check_auth(expected: &Option<Vec<u8>>, authed: bool, cmd: &Command) -> (r: AuthDecision)
    ensures
        match r {
            AuthDecision::Proceed => authed || expected is None,
            AuthDecision::Accept => !authed && expected is Some && (cmd@ matches CommandV::Auth {
                pass,
            } && pass == expected->0@),
            AuthDecision::WrongPass => !authed && expected is Some && (
            cmd@ matches CommandV::Auth { pass } && pass != expected->0@),
            AuthDecision::NeedAuth => !authed && expected is Some && !(cmd@ is Auth),
        },
{
    if authed {
        return AuthDecision::Proceed;
    }
    match expected {
        None => AuthDecision::Proceed,
        Some(want) => match cmd {
            Command::Auth { pass } => {
                if crate::util::bytes_eq(pass.as_slice(), want.as_slice()) {
                    AuthDecision::Accept
                } else {
                    AuthDecision::WrongPass
                }
            },
            _ => AuthDecision::NeedAuth,
        },
    }
}

fn wrongpass_frame() -> (r: Vec<u8>)
    ensures
        r@ == s_wrongpass(),
{
    let mut v: Vec<u8> = Vec::new();
    v.push(87);
    v.push(82);
    v.push(79);
    v.push(78);
    v.push(71);
    v.push(80);
    v.push(65);
    v.push(83);
    v.push(83);
    v.push(32);
    v.push(105);
    v.push(110);
    v.push(118);
    v.push(97);
    v.push(108);
    v.push(105);
    v.push(100);
    v.push(32);
    v.push(112);
    v.push(97);
    v.push(115);
    v.push(115);
    v.push(119);
    v.push(111);
    v.push(114);
    v.push(100);
    assert(v@ =~= s_wrongpass());
    v
}

fn noauth_frame() -> (r: Vec<u8>)
    ensures
        r@ == s_noauth(),
{
    let mut v: Vec<u8> = Vec::new();
    v.push(78);
    v.push(79);
    v.push(65);
    v.push(85);
    v.push(84);
    v.push(72);
    v.push(32);
    v.push(65);
    v.push(117);
    v.push(116);
    v.push(104);
    v.push(101);
    v.push(110);
    v.push(116);
    v.push(105);
    v.push(99);
    v.push(97);
    v.push(116);
    v.push(105);
    v.push(111);
    v.push(110);
    v.push(32);
    v.push(114);
    v.push(101);
    v.push(113);
    v.push(117);
    v.push(105);
    v.push(114);
    v.push(101);
    v.push(100);
    assert(v@ =~= s_noauth());
    v
}

/// The error text for an authentication decision, as an error frame.
pub fn auth_error_frame(wrong_pass: bool) -> (r: RespValue)
    ensures
        wrong_pass ==> r@ == RespV::Error(s_wrongpass()),
        !wrong_pass ==> r@ == RespV::Error(s_noauth()),
{
    if wrong_pass {
        RespValue::Error(wrongpass_frame())
    } else {
        RespValue::Error(noauth_frame())
    }
}

/// Execute a command that touches neither store nor connection state: the
/// immediate control replies and the outcomes handed to the caller.
pub fn execute_control(cmd: &Command) -> (r: Option<(CommandResponse, Effects)>)
    ensures
        match cmd@ {
            CommandV::Ping => r matches Some((CommandResponse::Value(v), ef)) && v@
                == RespV::Simple(s_pong()) && no_effect(ef),
            CommandV::Echo { message } => r matches Some((CommandResponse::Value(v), ef)) && v@
                == RespV::Str(message) && no_effect(ef),
            CommandV::Multi => r matches Some((CommandResponse::Transaction, ef)) && no_effect(ef),
            CommandV::Exec => r matches Some((CommandResponse::Value(v), ef)) && v@
                == RespV::Error(s_exec_no_multi()) && no_effect(ef),
            CommandV::Discard => r matches Some((CommandResponse::Value(v), ef)) && v@
                == RespV::Error(s_discard_no_multi()) && no_effect(ef),
            CommandV::Auth { pass } => r matches Some(
                (CommandResponse::AuthCheck { pass: p }, ef),
            ) && p@ == pass && no_effect(ef),
            CommandV::Subscribe { channels } => r matches Some(
                (CommandResponse::Subscribed { channels: cs }, ef),
            ) && seq_views(cs@) == channels && no_effect(ef),
            CommandV::Publish { channel, message } => r matches Some(
                (CommandResponse::PublishWait { channel: c, message: m }, ef),
            ) && c@ == channel && m@ == message && no_effect(ef),
            _ => r is None,
        },
{
    match cmd {
        Command::Ping => Some((CommandResponse::Value(pong_frame()), no_effects())),
        Command::Echo { message } => Some(
            (CommandResponse::Value(RespValue::String(clone_bytes(message))), no_effects()),
        ),
        Command::Multi => Some((CommandResponse::Transaction, no_effects())),
        Command::Exec => Some((CommandResponse::Value(exec_no_multi()), no_effects())),
        Command::Discard => Some((CommandResponse::Value(discard_no_multi()), no_effects())),
        Command::Auth { pass } => Some(
            (CommandResponse::AuthCheck { pass: clone_bytes(pass) }, no_effects()),
        ),
        Command::Subscribe { channels } => {
            let mut cs: Vec<Vec<u8>> = Vec::new();
            let mut i: usize = 0;
            proof {
                assert(seq_views(cs@) =~= seq_views(channels@).take(0));
            }
            while i < channels.len()
                invariant
                    0 <= i <= channels@.len(),
                    cs@.len() == i,
                    seq_views(cs@) =~= seq_views(channels@).take(i as int),
                decreases channels@.len() - i,
            {
                let ghost pre = cs@;
                cs.push(clone_bytes(&channels[i]));
                proof {
                    broadcast use crate::store::lemma_seq_views_index;

                    assert forall|x: int| 0 <= x < cs@.len() implies #[trigger] seq_views(cs@)[x]
                        == seq_views(channels@).take(i as int + 1)[x] by {
                        if x < pre.len() {
                            assert(cs@[x] == pre[x]);
                            assert(seq_views(pre)[x] == pre[x]@);
                        }
                    }
                    assert(seq_views(cs@) =~= seq_views(channels@).take(i as int + 1));
                }
                i = i + 1;
            }
            proof {
                assert(seq_views(channels@).take(channels@.len() as int) =~= seq_views(channels@));
            }
            Some((CommandResponse::Subscribed { channels: cs }, no_effects()))
        },
        Command::Publish { channel, message } => Some(
            (
                CommandResponse::PublishWait {
                    channel: clone_bytes(channel),
                    message: clone_bytes(message),
                },
                no_effects(),
            ),
        ),
        _ => None,
    }
}

/// No follow-up work recorded.
pub open spec fn no_effect(ef: Effects) -> bool {
    ef.changes == 0 && ef.notify_bpop is None && ef.notify_xread is None
}

} // verus!

verus! {

/// How many of the keys DEL actually removes: keys present in the store,
/// each counted once.
pub open spec fn spec_del_count(s: MemoryStorage, keys: Seq<Seq<u8>>) -> int
    decreases keys.len(),
{
    if keys.len() == 0 {
        0
    } else {
        spec_del_count(s, keys.drop_last()) + (if s.spec_entry(keys.last()) is Some
            && !crate::set::seq_contains(keys.drop_last(), keys.last()) {
            1int
        } else {
            0int
        })
    }
}

proof fn lemma_del_count_bound(s: MemoryStorage, keys: Seq<Seq<u8>>)
    ensures
        0 <= spec_del_count(s, keys) <= keys.len(),
    decreases keys.len(),
{
    if keys.len() > 0 {
        lemma_del_count_bound(s, keys.drop_last());
    }
}

impl MemoryStorage {
    /// Execute a write command over strings and lists, shaping its reply and
    /// follow-up work; blocking pops that cannot be served at once become a
    /// wait outcome for the caller.
    #[verifier::rlimit(100)]
    #[verifier::loop_isolation(false)]
    pub fn execute_write_basic(&mut self, cmd: Command, now: u64) -> (r: Result<
        Result<(CommandResponse, Effects), Vec<u8>>,
        Command,
    >)
        requires
            old(self).wf(),
            cmd@ matches CommandV::Del { keys } ==> keys.len() <= i64::MAX,
            cmd@ matches CommandV::Push { elems, .. } ==> elems.len() >= 1,
        ensures
            final(self).wf(),
            match cmd@ {
                CommandV::FlushDb => r matches Ok(Ok((CommandResponse::Value(v), ef))) && v@
                    == RespV::Simple(s_ok()) && final(self).entries@.len() == 0 && ef.changes == (
                if crate::store::live_filter(old(self).entries@, now).len() <= i64::MAX {
                    crate::store::live_filter(old(self).entries@, now).len() as int
                } else {
                    0
                }) && ef.notify_bpop is None && ef.notify_xread is None,
                CommandV::SetKv { key, val, ttl } => r matches Ok(Ok((CommandResponse::Value(v), ef)))
                    && v@ == RespV::Simple(s_ok()) && final(self).spec_entry(key) == Some(
                    (crate::store::spec_deadline(ttl, now), VModel::MStr(val)),
                ) && (forall|k2: Seq<u8>|
                    k2 != key ==> #[trigger] final(self).spec_entry(k2) == old(self).spec_entry(
                        k2,
                    )) && ef.changes == 1 && ef.notify_bpop is None && ef.notify_xread is None,
                CommandV::Del { keys } => r matches Ok(Ok((CommandResponse::Value(v), ef))) && v@
                    == RespV::Int(spec_del_count(*old(self), keys)) && (forall|k2: Seq<u8>|
                    #[trigger] final(self).spec_entry(k2) == (if crate::set::seq_contains(
                        keys,
                        k2,
                    ) {
                        None
                    } else {
                        old(self).spec_entry(k2)
                    })) && ef.changes == spec_del_count(*old(self), keys) && ef.notify_bpop is None
                    && ef.notify_xread is None,
                CommandV::Incr { key } => match r {
                    Ok(Ok((CommandResponse::Value(v), ef))) => (
                    crate::store::spec_incr_ok(*old(self), key, now) matches Some(n) && v@
                        == RespV::Int(n) && final(self).spec_entry(key) == Some(
                        (None::<u64>, VModel::MStr(crate::util::dec_repr_i(n))),
                    ) && (forall|k2: Seq<u8>|
                        k2 != key ==> #[trigger] final(self).spec_entry(k2) == old(
                            self,
                        ).spec_entry(k2)) && ef.changes == 1),
                    Ok(Err(e)) => crate::store::spec_incr_ok(*old(self), key, now) is None && e@
                        == crate::store::spec_incr_error() && final(self).entries@ == old(
                        self,
                    ).entries@,
                    _ => false,
                },
                CommandV::Push { key, elems, dir } => match r {
                    Ok(Ok((CommandResponse::Value(v), ef))) => ({
                        let base = match old(self).spec_get(key, now) {
                            Some(VModel::MList(l)) => l,
                            _ => Seq::empty(),
                        };
                        let newl = crate::list::spec_push_list(base, elems, dir);
                        &&& !(old(self).spec_get(key, now) matches Some(w) && !(w is MList))
                        &&& v@ == RespV::Int(
                            if newl.len() <= i64::MAX {
                                newl.len() as int
                            } else {
                                0
                            },
                        )
                        &&& (final(self).spec_entry(key) matches Some(e2) && e2.1
                            == VModel::MList(newl))
                        &&& (forall|k2: Seq<u8>|
                            k2 != key ==> #[trigger] final(self).spec_entry(k2) == old(
                                self,
                            ).spec_entry(k2))
                        &&& ef.changes == 1
                        &&& (ef.notify_bpop matches Some(nk) && nk@ == key)
                        &&& ef.notify_xread is None
                    }),
                    Ok(Err(e)) => (old(self).spec_get(key, now) matches Some(w) && !(w is MList))
                        && e@ == crate::list::spec_not_list() && final(self).entries@ == old(
                        self,
                    ).entries@,
                    _ => false,
                },
                CommandV::Pop { key, dir, count } => match r {
                    Ok(Ok((CommandResponse::Value(v), ef))) => ({
                        let l = match old(self).spec_get(key, now) {
                            Some(VModel::MList(l)) => l,
                            _ => Seq::empty(),
                        };
                        let out = crate::list::spec_pop_list(l, dir, count);
                        &&& (old(self).spec_get(key, now) matches Some(VModel::MList(_)) ==> ({
                            &&& (count == 1 ==> v@ == RespV::Str(out.0[0]))
                            &&& (count != 1 ==> v@ == arr_of_strs(out.0))
                            &&& ef.changes == 1
                            &&& final(self).spec_entry(key) == (if out.1.len() == 0 {
                                None::<(Option<u64>, VModel)>
                            } else {
                                Some(
                                    (
                                        crate::list::entry_expiry(old(self).spec_entry(key)),
                                        VModel::MList(out.1),
                                    ),
                                )
                            })
                        }))
                        &&& (!(old(self).spec_get(key, now) matches Some(VModel::MList(_))) ==> v@
                            == RespV::NilStr && ef.changes == 0 && final(self).entries@ == old(
                            self,
                        ).entries@)
                        &&& (forall|k2: Seq<u8>|
                            k2 != key ==> #[trigger] final(self).spec_entry(k2) == old(
                                self,
                            ).spec_entry(k2))
                        &&& ef.notify_bpop is None
                        &&& ef.notify_xread is None
                    }),
                    _ => false,
                },
                CommandV::BPop { key, dir, timeout_millis } => match r {
                    Ok(Ok((CommandResponse::Value(v), ef))) => ({
                        let l = match old(self).spec_get(key, now) {
                            Some(VModel::MList(l)) => l,
                            _ => Seq::empty(),
                        };
                        let out = crate::list::spec_pop_list(l, dir, 1);
                        &&& old(self).spec_get(key, now) matches Some(VModel::MList(_))
                        &&& v@ == RespV::Arr(seq![RespV::Str(key), RespV::Str(out.0[0])])
                        &&& ef.changes == 1
                        &&& final(self).spec_entry(key) == (if out.1.len() == 0 {
                            None::<(Option<u64>, VModel)>
                        } else {
                            Some(
                                (
                                    crate::list::entry_expiry(old(self).spec_entry(key)),
                                    VModel::MList(out.1),
                                ),
                            )
                        })
                        &&& (forall|k2: Seq<u8>|
                            k2 != key ==> #[trigger] final(self).spec_entry(k2) == old(
                                self,
                            ).spec_entry(k2))
                    }),
                    Ok(Ok((CommandResponse::BPopWait { key: wk, dir: wd, timeout_millis: wt }, ef)))
                        => !(old(self).spec_get(key, now) matches Some(VModel::MList(_))) && wk@
                        == key && wd == dir && wt == timeout_millis && final(self).entries@ == old(
                        self,
                    ).entries@ && no_effect(ef),
                    _ => false,
                },
                _ => r matches Err(back) && back == cmd && final(self).entries@ == old(self).entries@,
            },
    {
        broadcast use crate::store::lemma_seq_views_index;

        match cmd {
            Command::FlushDb => {
                let n = self.size(now);
                self.flush();
                let nn: u64 = if n >= 0 {
                    n as u64
                } else {
                    0
                };
                proof {
                    crate::store::lemma_live_filter_len_pub(old(self).entries@, now);
                }
                Ok(Ok((CommandResponse::Value(ok_frame()), count_effects(nn))))
            },
            Command::SetKv { key, val, ttl } => {
                self.set(key, val, ttl, now);
                Ok(Ok((CommandResponse::Value(ok_frame()), count_effects(1))))
            },
            Command::Del { keys } => {
                let ghost kv = seq_views(keys@);
                let mut count: i64 = 0;
                let mut i: usize = 0;
                proof {
                    assert(kv.take(0) =~= Seq::<Seq<u8>>::empty());
                    broadcast use crate::store::lemma_seq_views_index;

                }
                while i < keys.len()
                    invariant
                        0 <= i <= keys@.len(),
                        keys@.len() <= i64::MAX,
                        self.wf(),
                        0 <= count <= i,
                        count == spec_del_count(*old(self), kv.take(i as int)),
                        forall|k2: Seq<u8>|
                            #[trigger] self.spec_entry(k2) == (if crate::set::seq_contains(
                                kv.take(i as int),
                                k2,
                            ) {
                                None
                            } else {
                                old(self).spec_entry(k2)
                            }),
                    decreases keys@.len() - i,
                {
                    broadcast use crate::store::lemma_seq_views_index;

                    proof {
                        assert(kv.take(i as int + 1).drop_last() =~= kv.take(i as int));
                        assert(kv.take(i as int + 1).last() == kv[i as int]);
                        lemma_del_count_bound(*old(self), kv.take(i as int));
                    }
                    let ghost pre = *self;
                    let removed = self.del(&keys[i]);
                    proof {
                        if removed {
                            assert(pre.spec_entry(kv[i as int]) is Some);
                            assert(!crate::set::seq_contains(kv.take(i as int), kv[i as int]));
                            assert(old(self).spec_entry(kv[i as int]) is Some);
                        } else {
                            if old(self).spec_entry(kv[i as int]) is Some
                                && !crate::set::seq_contains(kv.take(i as int), kv[i as int]) {
                                assert(pre.spec_entry(kv[i as int]) is Some);
                            }
                        }
                        assert forall|k2: Seq<u8>| true implies #[trigger] self.spec_entry(k2) == (
                        if crate::set::seq_contains(kv.take(i as int + 1), k2) {
                            None
                        } else {
                            old(self).spec_entry(k2)
                        }) by {
                            if crate::set::seq_contains(kv.take(i as int + 1), k2) {
                                let j = choose|j: int|
                                    0 <= j < i + 1 && #[trigger] kv.take(i as int + 1)[j] == k2;
                                if j < i {
                                    assert(crate::set::seq_contains(kv.take(i as int), k2)) by {
                                        assert(kv.take(i as int)[j] == k2);
                                    }
                                } else {
                                    assert(k2 == kv[i as int]);
                                }
                            } else {
                                assert(!crate::set::seq_contains(kv.take(i as int), k2)) by {
                                    if crate::set::seq_contains(kv.take(i as int), k2) {
                                        let j = choose|j: int|
                                            0 <= j < i && #[trigger] kv.take(i as int)[j] == k2;
                                        assert(kv.take(i as int + 1)[j] == k2);
                                    }
                                }
                                assert(k2 != kv[i as int]) by {
                                    if k2 == kv[i as int] {
                                        assert(kv.take(i as int + 1)[i as int] == k2);
                                    }
                                }
                            }
                        }
                    }
                    if removed {
                        count = count + 1;
                    }
                    i = i + 1;
                }
                proof {
                    assert(kv.take(keys@.len() as int) =~= kv);
                    lemma_del_count_bound(*old(self), kv);
                }
                Ok(
                    Ok(
                        (
                            CommandResponse::Value(RespValue::Int(count)),
                            count_effects(count as u64),
                        ),
                    ),
                )
            },
            Command::Incr { key } => {
                match self.incr(&key, now) {
                    Ok(v) => Ok(
                        Ok((CommandResponse::Value(RespValue::Int(v)), count_effects(1))),
                    ),
                    Err(e) => Ok(Err(e)),
                }
            },
            Command::Push { key, elems, dir } => {
                match self.push(&key, elems, dir, now) {
                    Ok(n) => Ok(
                        Ok(
                            (
                                CommandResponse::Value(RespValue::Int(n)),
                                Effects {
                                    changes: 1,
                                    notify_bpop: Some(key),
                                    notify_xread: None,
                                },
                            ),
                        ),
                    ),
                    Err(e) => Ok(Err(e)),
                }
            },
            Command::Pop { key, dir, count } => {
                match self.pop(&key, dir, count, now) {
                    Some(mut elems) => {
                        proof {
                            crate::store::lemma_spec_get_wf(*old(self), key@, now);
                            assert(seq_views(elems@).len() == elems@.len());
                        }
                        if count == 1 {
                            proof {
                                assert(elems@.len() == 1);
                            }
                            let e = match elems.pop() {
                                Some(e) => e,
                                None => {
                                    proof {
                                        assert(false);
                                    }
                                    Vec::new()
                                },
                            };
                            proof {
                                assert(e@ == seq_views(elems@.push(e))[0]);
                            }
                            Ok(
                                Ok(
                                    (
                                        CommandResponse::Value(RespValue::String(e)),
                                        count_effects(1),
                                    ),
                                ),
                            )
                        } else {
                            Ok(
                                Ok(
                                    (
                                        CommandResponse::Value(strs_frame(elems)),
                                        count_effects(1),
                                    ),
                                ),
                            )
                        }
                    },
                    None => Ok(
                        Ok((CommandResponse::Value(RespValue::NilString), count_effects(0))),
                    ),
                }
            },
            Command::BPop { key, dir, timeout_millis } => {
                match self.pop(&key, dir, 1, now) {
                    Some(mut elems) => {
                        proof {
                            crate::store::lemma_spec_get_wf(*old(self), key@, now);
                            assert(seq_views(elems@).len() == elems@.len());
                            assert(elems@.len() == 1);
                        }
                        let e = match elems.pop() {
                            Some(e) => e,
                            None => {
                                proof {
                                    assert(false);
                                }
                                Vec::new()
                            },
                        };
                        proof {
                            assert(e@ == seq_views(elems@.push(e))[0]);
                        }
                        let mut items: Vec<RespValue> = Vec::new();
                        items.push(RespValue::String(key));
                        items.push(RespValue::String(e));
                        let out = RespValue::Array(items);
                        proof {
                            let a = out@->Arr_0;
                            assert(a.len() == 2);
                            assert(a[0] == items@[0]@);
                            assert(a[1] == items@[1]@);
                            assert(a[0] == RespV::Str(key@) && a[1] == RespV::Str(e@));
                            assert(a =~= seq![RespV::Str(key@), RespV::Str(e@)]);
                        }
                        Ok(Ok((CommandResponse::Value(out), count_effects(1))))
                    },
                    None => Ok(
                        Ok(
                            (
                                CommandResponse::BPopWait { key, dir, timeout_millis },
                                no_effects(),
                            ),
                        ),
                    ),
                }
            },
            other => Err(other),
        }
    }
}

} // verus!

verus! {

/// The formatted `(key, id text)` pairs a blocking XREAD registers.
pub open spec fn spec_wait_streams(ps: Seq<(Seq<u8>, (u64, u64))>) -> Seq<(Seq<u8>, Seq<u8>)> {
    Seq::new(
        ps.len(),
        |i: int|
            if 0 <= i < ps.len() {
                (ps[i].0, id_text(ps[i].1.0, ps[i].1.1))
            } else {
                (Seq::empty(), Seq::empty())
            },
    )
}

/// Format the parsed start ids for a blocking XREAD registration.
#[verifier::loop_isolation(false)]
fn wait_streams(parsed: Vec<(Vec<u8>, (u64, u64))>) -> (r: Vec<(Vec<u8>, Vec<u8>)>)
    ensures
        crate::stream::streams_model(r@) == spec_wait_streams(
            crate::stream::parsed_model(parsed@),
        ),
{
    broadcast use crate::stream::lemma_streams_model_index, crate::stream::lemma_parsed_model_index;

    let ghost target = spec_wait_streams(crate::stream::parsed_model(parsed@));
    let mut out: Vec<(Vec<u8>, Vec<u8>)> = Vec::new();
    let mut i: usize = 0;
    while i < parsed.len()
        invariant
            0 <= i <= parsed@.len(),
            out@.len() == i,
            forall|x: int|
                0 <= x < i ==> (#[trigger] out@[x]).0@ == target[x].0 && out@[x].1@ == target[x].1,
        decreases parsed@.len() - i,
    {
        let ghost preo = out@;
        let k = clone_bytes(&parsed[i].0);
        let idt = format_id(parsed[i].1.0, parsed[i].1.1);
        out.push((k, idt));
        proof {
            assert(forall|x: int| 0 <= x < preo.len() ==> #[trigger] out@[x] == preo[x]);
        }
        i = i + 1;
    }
    proof {
        assert forall|x: int| 0 <= x < crate::stream::streams_model(out@).len() implies
            #[trigger] crate::stream::streams_model(out@)[x] == target[x] by {
            assert(crate::stream::streams_model(out@)[x] == (out@[x].0@, out@[x].1@));
        }
        assert(crate::stream::streams_model(out@) =~= target);
    }
    out
}

/// Shape the XREAD responses into the reply frame.
#[verifier::loop_isolation(false)]
fn xread_frames(resp: Vec<(Vec<u8>, Vec<crate::stream::StreamRecord>)>) -> (r: RespValue)
    ensures
        r@ == xread_reply(crate::stream::resp_model(resp@)),
{
    broadcast use crate::stream::lemma_resp_model_index;

    let ghost target = xread_reply(crate::stream::resp_model(resp@));
    let mut vs: Vec<RespValue> = Vec::new();
    let mut i: usize = 0;
    while i < resp.len()
        invariant
            0 <= i <= resp@.len(),
            vs@.len() == i,
            target matches RespV::Arr(tv) && tv.len() == resp@.len() && (forall|x: int|
                0 <= x < i ==> (#[trigger] vs@[x])@ == tv[x]),
        decreases resp@.len() - i,
    {
        let ghost preo = vs@;
        let k = clone_bytes(&resp[i].0);
        let frames = records_to_frames(&resp[i].1);
        let ghost fv = frames@;
        let mut pair: Vec<RespValue> = Vec::new();
        pair.push(RespValue::String(k));
        pair.push(RespValue::Array(frames));
        let entry = RespValue::Array(pair);
        proof {
            let a = entry@->Arr_0;
            assert(a.len() == 2);
            assert(a[0] == pair@[0]@);
            assert(a[1] == pair@[1]@);
            let inner = a[1]->Arr_0;
            assert(inner.len() == fv.len());
            assert forall|y: int| 0 <= y < inner.len() implies inner[y]
                == crate::resp::views_of(fv)[y] by {
                assert(inner[y] == fv[y]@);
                assert(crate::resp::views_of(fv)[y] == fv[y]@);
            }
            assert(inner =~= crate::resp::views_of(fv));
            let tv = target->Arr_0;
            assert(a[0] == RespV::Str(resp@[i as int].0@));
            assert(a =~= seq![
                RespV::Str(resp@[i as int].0@),
                RespV::Arr(records_frame(crate::stream::stream_model(resp@[i as int].1@))),
            ]);
        }
        vs.push(entry);
        proof {
            assert(forall|x: int| 0 <= x < preo.len() ==> #[trigger] vs@[x] == preo[x]);
        }
        i = i + 1;
    }
    let out = RespValue::Array(vs);
    proof {
        let a = out@->Arr_0;
        let tv = target->Arr_0;
        assert forall|x: int| 0 <= x < a.len() implies a[x] == tv[x] by {
            assert(a[x] == vs@[x]@);
        }
        assert(a =~= tv);
    }
    out
}

impl MemoryStorage {
    /// Execute a write or read over sets, sorted sets and streams, shaping
    /// the reply and the follow-up work; a blocking XREAD with no news
    /// becomes a wait outcome. ZADD scores arrive resolved to double bit
    /// patterns alongside the command.
    #[verifier::rlimit(100)]
    #[verifier::loop_isolation(false)]
    pub fn execute_write_collections(
        &mut self,
        cmd: Command,
        zargs: Vec<crate::sorted_set::ZAddEntry>,
        now: u64,
        gen_ms: u64,
    ) -> (r: Result<Result<(CommandResponse, Effects), Vec<u8>>, Command>)
        requires
            old(self).wf(),
            cmd@ matches CommandV::SAdd { members, .. } ==> 1 <= members.len() <= i64::MAX,
            cmd@ matches CommandV::SRem { members, .. } ==> members.len() <= i64::MAX,
            cmd@ matches CommandV::ZRem { members, .. } ==> members.len() <= i64::MAX,
            cmd@ matches CommandV::ZAdd { members, .. } ==> 1 <= members.len() <= i64::MAX
                && members.len() == zargs@.len() && (forall|i: int|
                0 <= i < members.len() ==> (#[trigger] zargs@[i]).member@ == members[i].1),
        ensures
            final(self).wf(),
            match cmd@ {
                CommandV::SAdd { key, members } => match r {
                    Ok(Ok((CommandResponse::Value(v), ef))) => ({
                        let base = match old(self).spec_get(key, now) {
                            Some(VModel::MSet(s)) => s,
                            _ => Seq::empty(),
                        };
                        let out = crate::set::spec_sadd(base, members);
                        &&& !(old(self).spec_get(key, now) matches Some(w) && !(w is MSet))
                        &&& v@ == RespV::Int(out.1)
                        &&& (final(self).spec_entry(key) matches Some(e2) && e2.1
                            == VModel::MSet(out.0))
                        &&& (forall|k2: Seq<u8>|
                            k2 != key ==> #[trigger] final(self).spec_entry(k2) == old(
                                self,
                            ).spec_entry(k2))
                        &&& ef.changes == (if out.1 > 0 {
                            1int
                        } else {
                            0int
                        })
                    }),
                    Ok(Err(e)) => (old(self).spec_get(key, now) matches Some(w) && !(w is MSet))
                        && e@ == crate::set::spec_not_set() && final(self).entries@ == old(
                        self,
                    ).entries@,
                    _ => false,
                },
                CommandV::SRem { key, members } => match r {
                    Ok(Ok((CommandResponse::Value(v), ef))) => (forall|k2: Seq<u8>|
                        k2 != key ==> #[trigger] final(self).spec_entry(k2) == old(
                            self,
                        ).spec_entry(k2)) && (match old(self).spec_get(key, now) {
                        Some(VModel::MSet(base)) => ({
                            let out = crate::set::spec_srem(base, members);
                            &&& v@ == RespV::Int(out.1)
                            &&& ef.changes == (if out.1 > 0 {
                                1int
                            } else {
                                0int
                            })
                            &&& final(self).spec_entry(key) == (if out.0.len() == 0 {
                                None::<(Option<u64>, VModel)>
                            } else {
                                Some(
                                    (
                                        crate::list::entry_expiry(old(self).spec_entry(key)),
                                        VModel::MSet(out.0),
                                    ),
                                )
                            })
                        }),
                        None => v@ == RespV::Int(0) && ef.changes == 0 && final(self).entries@
                            == old(self).entries@,
                        Some(_) => false,
                    }),
                    Ok(Err(e)) => (old(self).spec_get(key, now) matches Some(w) && !(w is MSet))
                        && e@ == crate::set::spec_not_set() && final(self).entries@ == old(
                        self,
                    ).entries@,
                    _ => false,
                },
                CommandV::ZAdd { key, members } => match r {
                    Ok(Ok((CommandResponse::Value(v), ef))) => ({
                        let base = match old(self).spec_get(key, now) {
                            Some(VModel::MZSet(sm, _)) => sm,
                            _ => Seq::empty(),
                        };
                        let out = crate::sorted_set::spec_zadd_scores(
                            base,
                            crate::sorted_set::zargs_model(zargs@),
                        );
                        &&& !(old(self).spec_get(key, now) matches Some(w) && !(w is MZSet))
                        &&& v@ == RespV::Int(out.1)
                        &&& (final(self).spec_entry(key) matches Some(e2) && (
                        e2.1 matches VModel::MZSet(sm2, _) && sm2 == out.0))
                        &&& (forall|k2: Seq<u8>|
                            k2 != key ==> #[trigger] final(self).spec_entry(k2) == old(
                                self,
                            ).spec_entry(k2))
                        &&& ef.changes == (if out.1 > 0 {
                            1int
                        } else {
                            0int
                        })
                    }),
                    Ok(Err(e)) => (old(self).spec_get(key, now) matches Some(w) && !(w is MZSet))
                        && e@ == crate::sorted_set::spec_not_zset() && final(self).entries@ == old(
                        self,
                    ).entries@,
                    _ => false,
                },
                CommandV::ZRem { key, members } => match r {
                    Ok(Ok((CommandResponse::Value(v), ef))) => (forall|k2: Seq<u8>|
                        k2 != key ==> #[trigger] final(self).spec_entry(k2) == old(
                            self,
                        ).spec_entry(k2)) && (match old(self).spec_get(key, now) {
                        Some(VModel::MZSet(sm, _)) => ({
                            let out = crate::sorted_set::spec_zrem_scores(sm, members);
                            &&& v@ == RespV::Int(out.1)
                            &&& ef.changes == (if out.1 > 0 {
                                1int
                            } else {
                                0int
                            })
                            &&& (out.0.len() == 0 ==> final(self).spec_entry(key) is None)
                            &&& (out.0.len() > 0 ==> (final(self).spec_entry(key) matches Some(e2)
                                && e2.0 == crate::list::entry_expiry(old(self).spec_entry(key)) && (
                            e2.1 matches VModel::MZSet(sm2, _) && sm2 == out.0)))
                        }),
                        None => v@ == RespV::Int(0) && ef.changes == 0 && final(self).entries@
                            == old(self).entries@,
                        Some(_) => false,
                    }),
                    Ok(Err(e)) => (old(self).spec_get(key, now) matches Some(w) && !(w is MZSet))
                        && e@ == crate::sorted_set::spec_not_zset() && final(self).entries@ == old(
                        self,
                    ).entries@,
                    _ => false,
                },
                CommandV::XAdd { key, id, data } => match r {
                    Ok(Ok((CommandResponse::Value(v), ef))) => ({
                        let base = match old(self).spec_get(key, now) {
                            Some(VModel::MStream(sm)) => sm,
                            _ => Seq::empty(),
                        };
                        let top = crate::stream::stream_top(base);
                        &&& !(old(self).spec_get(key, now) matches Some(w) && !(w is MStream))
                        &&& (crate::stream::spec_parse_add_id(id, gen_ms, top) matches Some(nid)
                            && nid != (0u64, 0u64) && (crate::stream::id_lt(
                            top.0,
                            top.1,
                            nid.0,
                            nid.1,
                        ) || base.len() == 0) && v@ == RespV::Str(id_text(nid.0, nid.1))
                            && (final(self).spec_entry(key) matches Some(e2) && (
                        e2.1 matches VModel::MStream(sm2) && sm2 == base.push(
                            (nid.0, nid.1, data),
                        ))))
                        &&& (forall|k2: Seq<u8>|
                            k2 != key ==> #[trigger] final(self).spec_entry(k2) == old(
                                self,
                            ).spec_entry(k2))
                        &&& ef.changes == 1
                        &&& (ef.notify_xread matches Some(nk) && nk@ == key)
                        &&& ef.notify_bpop is None
                    }),
                    Ok(Err(e)) => final(self).entries@ == old(self).entries@ && ({
                        let base = match old(self).spec_get(key, now) {
                            Some(VModel::MStream(sm)) => sm,
                            _ => Seq::empty(),
                        };
                        let top = crate::stream::stream_top(base);
                        let wrong_type = old(self).spec_get(key, now) matches Some(w) && !(
                        w is MStream);
                        (wrong_type && e@ == crate::stream::spec_not_stream()) || (!wrong_type
                            && (match crate::stream::spec_parse_add_id(id, gen_ms, top) {
                            None => e@ == crate::stream::spec_invalid_id(),
                            Some(nid) => (nid == (0u64, 0u64) && e@
                                == crate::stream::spec_zero_id_error()) || (nid != (0u64, 0u64)
                                && !crate::stream::id_lt(top.0, top.1, nid.0, nid.1) && base.len()
                                > 0 && e@ == crate::stream::spec_small_id_error()),
                        }))
                    }),
                    _ => false,
                },
                CommandV::XRead { streams, block } => final(self).entries@ == old(self).entries@
                    && (match r {
                    Ok(Ok((CommandResponse::Value(v), ef))) => (
                    match crate::stream::spec_xread(*old(self), streams, now) {
                        Some((ps, rs)) => (rs.len() > 0 && v@ == xread_reply(rs)) || (rs.len() == 0
                            && block is None && v@ == RespV::NilArr),
                        None => false,
                    }) && ef.changes == 0,
                    Ok(Ok((CommandResponse::XReadWait { streams: ws, block_millis }, ef))) => (
                    match crate::stream::spec_xread(*old(self), streams, now) {
                        Some((ps, rs)) => rs.len() == 0 && block == Some(block_millis)
                            && crate::stream::streams_model(ws@) == spec_wait_streams(ps),
                        None => false,
                    }) && no_effect(ef),
                    Ok(Err(e)) => crate::stream::spec_xread(*old(self), streams, now) is None && e@
                        == crate::stream::spec_invalid_id(),
                    _ => false,
                }),
                _ => r matches Err(back) && back == cmd && final(self).entries@ == old(
                    self,
                ).entries@,
            },
    {
        match cmd {
            Command::SAdd { key, members } => {
                match self.sadd(&key, members, now) {
                    Ok(n) => {
                        let ch: u64 = if n > 0 {
                            1
                        } else {
                            0
                        };
                        Ok(
                            Ok(
                                (CommandResponse::Value(RespValue::Int(n)), count_effects(ch)),
                            ),
                        )
                    },
                    Err(e) => Ok(Err(e)),
                }
            },
            Command::SRem { key, members } => {
                match self.srem(&key, members, now) {
                    Ok(n) => {
                        let ch: u64 = if n > 0 {
                            1
                        } else {
                            0
                        };
                        Ok(
                            Ok(
                                (CommandResponse::Value(RespValue::Int(n)), count_effects(ch)),
                            ),
                        )
                    },
                    Err(e) => Ok(Err(e)),
                }
            },
            Command::ZAdd { key, members: _ } => {
                match self.zadd(&key, zargs, now) {
                    Ok(n) => {
                        let ch: u64 = if n > 0 {
                            1
                        } else {
                            0
                        };
                        Ok(
                            Ok(
                                (CommandResponse::Value(RespValue::Int(n)), count_effects(ch)),
                            ),
                        )
                    },
                    Err(e) => Ok(Err(e)),
                }
            },
            Command::ZRem { key, members } => {
                match self.zrem(&key, members, now) {
                    Ok(n) => {
                        let ch: u64 = if n > 0 {
                            1
                        } else {
                            0
                        };
                        Ok(
                            Ok(
                                (CommandResponse::Value(RespValue::Int(n)), count_effects(ch)),
                            ),
                        )
                    },
                    Err(e) => Ok(Err(e)),
                }
            },
            Command::XAdd { key, id, data } => {
                match self.xadd(&key, &id, data, now, gen_ms) {
                    Ok(nid) => {
                        let idt = format_id(nid.0, nid.1);
                        Ok(
                            Ok(
                                (
                                    CommandResponse::Value(RespValue::String(idt)),
                                    Effects {
                                        changes: 1,
                                        notify_bpop: None,
                                        notify_xread: Some(key),
                                    },
                                ),
                            ),
                        )
                    },
                    Err(e) => Ok(Err(e)),
                }
            },
            Command::XRead { streams, block } => {
                match self.xread(&streams, now) {
                    Ok((parsed, resp)) => {
                        if resp.len() > 0 {
                            proof {
                                assert(crate::stream::resp_model(resp@).len() == resp@.len());
                            }
                            Ok(
                                Ok(
                                    (
                                        CommandResponse::Value(xread_frames(resp)),
                                        count_effects(0),
                                    ),
                                ),
                            )
                        } else {
                            proof {
                                assert(crate::stream::resp_model(resp@).len() == resp@.len());
                            }
                            match block {
                                Some(block_millis) => Ok(
                                    Ok(
                                        (
                                            CommandResponse::XReadWait {
                                                streams: wait_streams(parsed),
                                                block_millis,
                                            },
                                            no_effects(),
                                        ),
                                    ),
                                ),
                                None => Ok(
                                    Ok(
                                        (
                                            CommandResponse::Value(RespValue::NilArray),
                                            count_effects(0),
                                        ),
                                    ),
                                ),
                            }
                        }
                    },
                    Err(e) => Ok(Err(e)),
                }
            },
            other => Err(other),
        }
    }
}

} // verus!
