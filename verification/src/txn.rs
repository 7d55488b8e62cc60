//! MULTI/EXEC transactions: the queuing step on one connection and the
//! batch execution under a single store borrow.

use vstd::prelude::*;

use crate::command::{
    abytes, spec_invalid_command, spec_no_command, spec_parse_command, Arguments, Command,
    CommandV,
};
use crate::exec::{CommandResponse, Config, Effects};
use crate::resp::{RespV, RespValue};
use crate::sorted_set::ZAddEntry;
use crate::store::MemoryStorage;
use crate::util::upper;

verus! {

/// What a frame received while queuing decides.
pub enum TxAction {
    /// Parsed: append it and reply +QUEUED.
    Queue(Command),
    /// Did not parse: reply the error frame and keep queuing.
    Rejected(Vec<u8>),
    /// EXEC: run the queue.
    ExecNow,
    /// DISCARD: reply +OK and abandon the queue.
    Discarded,
}

pub open spec fn s_exec_name() -> Seq<u8> {
    seq![69u8, 88u8, 69u8, 67u8]
}

pub open spec fn s_discard_name() -> Seq<u8> {
    seq![68u8, 73u8, 83u8, 67u8, 65u8, 82u8, 68u8]
}

/// The queuing step: what §4.7 does with one received frame.
pub fn transaction_step(frame: RespValue) -> (r: TxAction)
    ensures
        frame matches RespValue::Array(items) && items@.len() >= 1 && (
        abytes(items@[0]) matches Some(b) && upper(b) == s_exec_name()) ==> r is ExecNow,
        frame matches RespValue::Array(items) && items@.len() >= 1 && (
        abytes(items@[0]) matches Some(b) && upper(b) == s_discard_name()) ==> r is Discarded,
        match r {
            TxAction::ExecNow => frame matches RespValue::Array(items) && items@.len() >= 1 && (
            abytes(items@[0]) matches Some(b) && upper(b) == s_exec_name()),
            TxAction::Discarded => frame matches RespValue::Array(items) && items@.len() >= 1 && (
            abytes(items@[0]) matches Some(b) && upper(b) == s_discard_name()),
            TxAction::Queue(c) => frame matches RespValue::Array(items) && items@.len() >= 1 && (
            abytes(items@[0]) matches Some(b) && upper(b) != s_exec_name() && upper(b)
                != s_discard_name() && spec_parse_command(upper(b), items@.drop_first()) == Ok::<
                CommandV,
                Seq<u8>,
            >(c@)),
            TxAction::Rejected(e) => (!(frame@ is Arr) && e@ == spec_no_command()) || (
            frame@ is Arr && e@ == spec_invalid_command()) || (
            frame matches RespValue::Array(items) && items@.len() >= 1 && (
            abytes(items@[0]) matches Some(b) && upper(b) != s_exec_name() && upper(b)
                != s_discard_name() && (spec_parse_command(
                upper(b),
                items@.drop_first(),
            ) matches Err(e2) && e2 == e@))),
        },
{
    let args = match Arguments::from_raw_value(frame) {
        Ok(a) => a,
        Err(e) => {
            return TxAction::Rejected(e);
        },
    };
    let exec_lit = [69u8, 88u8, 69u8, 67u8];
    let discard_lit = [68u8, 73u8, 83u8, 67u8, 65u8, 82u8, 68u8];
    if crate::util::bytes_eq(args.command.as_slice(), exec_lit.as_slice()) {
        return TxAction::ExecNow;
    }
    if crate::util::bytes_eq(args.command.as_slice(), discard_lit.as_slice()) {
        return TxAction::Discarded;
    }
    match crate::command::parse_command(args) {
        Ok(c) => TxAction::Queue(c),
        Err(e) => TxAction::Rejected(e),
    }
}

pub open spec fn s_queued() -> Seq<u8> {
    seq![81u8, 85u8, 69u8, 85u8, 69u8, 68u8]
}

/// The +QUEUED reply.
pub fn queued_frame() -> (r: RespValue)
    ensures
        r@ == RespV::Simple(s_queued()),
{
    let mut v: Vec<u8> = Vec::new();
    v.push(81);
    v.push(85);
    v.push(69);
    v.push(85);
    v.push(69);
    v.push(68);
    proof {
        assert(v@ =~= s_queued());
    }
    RespValue::SimpleString(v)
}

pub open spec fn s_unsupported_in_multi() -> Seq<u8> {
    seq![69u8, 82u8, 82u8, 32u8, 85u8, 110u8, 115u8, 117u8, 112u8, 112u8, 111u8, 114u8, 116u8, 101u8, 100u8, 32u8, 111u8, 112u8, 101u8, 114u8, 97u8, 116u8, 105u8, 111u8, 110u8, 32u8, 105u8, 110u8, 32u8, 77u8, 85u8, 76u8, 84u8, 73u8, 32u8, 98u8, 108u8, 111u8, 99u8, 107u8]
}

fn unsupported_in_multi() -> (r: RespValue)
    ensures
        r@ == RespV::Error(s_unsupported_in_multi()),
{
    let mut v: Vec<u8> = Vec::new();
    v.push(69);
    v.push(82);
    v.push(82);
    v.push(32);
    v.push(85);
    v.push(110);
    v.push(115);
    v.push(117);
    v.push(112);
    v.push(112);
    v.push(111);
    v.push(114);
    v.push(116);
    v.push(101);
    v.push(100);
    v.push(32);
    v.push(111);
    v.push(112);
    v.push(101);
    v.push(114);
    v.push(97);
    v.push(116);
    v.push(105);
    v.push(111);
    v.push(110);
    v.push(32);
    v.push(105);
    v.push(110);
    v.push(32);
    v.push(77);
    v.push(85);
    v.push(76);
    v.push(84);
    v.push(73);
    v.push(32);
    v.push(98);
    v.push(108);
    v.push(111);
    v.push(99);
    v.push(107);
    proof {
        assert(v@ =~= s_unsupported_in_multi());
    }
    RespValue::Error(v)
}

/// Whether batch execution may run a command: the argument bounds the write
/// executors ask for, with ZADD scores aligned to the members.
pub open spec fn batch_cmd_ok(c: CommandV, zargs: Seq<ZAddEntry>) -> bool {
    &&& (c matches CommandV::Del { keys } ==> keys.len() <= i64::MAX)
    &&& (c matches CommandV::Push { elems, .. } ==> elems.len() >= 1)
    &&& (c matches CommandV::SAdd { members, .. } ==> 1 <= members.len() <= i64::MAX)
    &&& (c matches CommandV::SRem { members, .. } ==> members.len() <= i64::MAX)
    &&& (c matches CommandV::ZRem { members, .. } ==> members.len() <= i64::MAX)
    &&& (c matches CommandV::ZAdd { members, .. } ==> 1 <= members.len() <= i64::MAX
        && members.len() == zargs.len() && (forall|i: int|
        0 <= i < members.len() ==> (#[trigger] zargs[i]).member@ == members[i].1))
}

/// Whether a command mutates the store (or blocks) when executed.
pub open spec fn is_write_cmd(c: CommandV) -> bool {
    c is FlushDb || c is SetKv || c is Del || c is Incr || c is Push || c is Pop || c is BPop || c is SAdd || c is SRem || c is ZAdd || c is ZRem || c is XAdd || c is XRead
}

/// Run a control or read command; nothing for the write commands. The reply
/// is what a MULTI batch records (`batch_step` with the store unchanged).
#[verifier::rlimit(100)]
#[verifier::spinoff_prover]
fn step_readctl(storage: &MemoryStorage, cmd: &Command, config: &Config, now: u64) -> (r: Option<
    (RespValue, u64),
>)
    requires
        storage.wf(),
    ensures
        match r {
            Some(out) => !is_write_cmd(cmd@) && batch_step(
                *storage,
                *storage,
                cmd@,
                Seq::empty(),
                config.rdb_dir@,
                config.rdb_filename@,
                now,
                0,
                out.0@,
            ),
            None => is_write_cmd(cmd@),
        },
{
    let ghost cmdv = cmd@;
    let outcome: Option<Result<(RespValue, u64), Vec<u8>>> = match crate::exec::execute_control(
        cmd,
    ) {
        Some((resp, _)) => match resp {
            CommandResponse::Value(v) => Some(Ok((v, 0))),
            _ => Some(Ok((unsupported_in_multi(), 0))),
        },
        None => {
            match storage.execute_read(cmd, config, now) {
                Ok(Some(v)) => Some(Ok((v, 0))),
                Err(e) => Some(Err(e)),
                Ok(None) => match storage.execute_read_sets(cmd, now) {
                    Ok(Some(v)) => Some(Ok((v, 0))),
                    Err(e) => Some(Err(e)),
                    Ok(None) => match storage.execute_read_z(cmd, now) {
                        Ok(Some(v)) => Some(Ok((v, 0))),
                        Err(e) => Some(Err(e)),
                        Ok(None) => match storage.execute_read_streams(cmd, now) {
                            Ok(Some(v)) => Some(Ok((v, 0))),
                            Err(e) => Some(Err(e)),
                            Ok(None) => None,
                        },
                    },
                },
            }
        },
    };
    match outcome {
        None => {
            proof {
                assert(is_write_cmd(cmdv));
            }
            None
        },
        Some(res) => {
            let out: (RespValue, u64) = match res {
                Ok(x) => x,
                Err(e) => (RespValue::Error(e), 0),
            };
            proof {
                let it = out.0@;
                let d = config.rdb_dir@;
                let f = config.rdb_filename@;
            assert(cmdv is Ping ==> batch_step(*storage, *storage, cmdv, Seq::empty(), d, f, now, 0, it));
            assert(cmdv is DbSize ==> batch_step(*storage, *storage, cmdv, Seq::empty(), d, f, now, 0, it));
            assert(cmdv is Multi ==> batch_step(*storage, *storage, cmdv, Seq::empty(), d, f, now, 0, it));
            assert(cmdv is Exec ==> batch_step(*storage, *storage, cmdv, Seq::empty(), d, f, now, 0, it));
            assert(cmdv is Discard ==> batch_step(*storage, *storage, cmdv, Seq::empty(), d, f, now, 0, it));
            assert(cmdv is Keys ==> batch_step(*storage, *storage, cmdv, Seq::empty(), d, f, now, 0, it));
            assert(cmdv is Auth ==> batch_step(*storage, *storage, cmdv, Seq::empty(), d, f, now, 0, it));
            assert(cmdv is ConfigGet ==> batch_step(*storage, *storage, cmdv, Seq::empty(), d, f, now, 0, it));
            assert(cmdv is Echo ==> batch_step(*storage, *storage, cmdv, Seq::empty(), d, f, now, 0, it));
            assert(cmdv is Get ==> batch_step(*storage, *storage, cmdv, Seq::empty(), d, f, now, 0, it));
            assert(cmdv is Type ==> batch_step(*storage, *storage, cmdv, Seq::empty(), d, f, now, 0, it));
            assert(cmdv is Ttl ==> batch_step(*storage, *storage, cmdv, Seq::empty(), d, f, now, 0, it));
            assert(cmdv is LLen ==> batch_step(*storage, *storage, cmdv, Seq::empty(), d, f, now, 0, it));
            assert(cmdv is LRange ==> batch_step(*storage, *storage, cmdv, Seq::empty(), d, f, now, 0, it));
            assert(cmdv is SCard ==> batch_step(*storage, *storage, cmdv, Seq::empty(), d, f, now, 0, it));
            assert(cmdv is SMembers ==> batch_step(*storage, *storage, cmdv, Seq::empty(), d, f, now, 0, it));
            assert(cmdv is SIsMember ==> batch_step(*storage, *storage, cmdv, Seq::empty(), d, f, now, 0, it));
            assert(cmdv is ZRank ==> batch_step(*storage, *storage, cmdv, Seq::empty(), d, f, now, 0, it));
            assert(cmdv is ZScore ==> batch_step(*storage, *storage, cmdv, Seq::empty(), d, f, now, 0, it));
            assert(cmdv is ZRange ==> batch_step(*storage, *storage, cmdv, Seq::empty(), d, f, now, 0, it));
            assert(cmdv is ZCard ==> batch_step(*storage, *storage, cmdv, Seq::empty(), d, f, now, 0, it));
            assert(cmdv is XLen ==> batch_step(*storage, *storage, cmdv, Seq::empty(), d, f, now, 0, it));
            assert(cmdv is XRange ==> batch_step(*storage, *storage, cmdv, Seq::empty(), d, f, now, 0, it));
            assert(cmdv is Subscribe ==> batch_step(*storage, *storage, cmdv, Seq::empty(), d, f, now, 0, it));
            assert(cmdv is Publish ==> batch_step(*storage, *storage, cmdv, Seq::empty(), d, f, now, 0, it));
            }
            Some(out)
        },
    }
}

/// Run a write command; the reply a MULTI batch records and the change
/// count.
#[verifier::rlimit(100)]
#[verifier::spinoff_prover]
fn step_write(
    storage: &mut MemoryStorage,
    cmd: Command,
    zargs: Vec<ZAddEntry>,
    config: &Config,
    now: u64,
    gen_ms: u64,
) -> (r: (RespValue, u64))
    requires
        old(storage).wf(),
        batch_cmd_ok(cmd@, zargs@),
        is_write_cmd(cmd@),
    ensures
        final(storage).wf(),
        batch_step(
            *old(storage),
            *final(storage),
            cmd@,
            zargs@,
            config.rdb_dir@,
            config.rdb_filename@,
            now,
            gen_ms,
            r.0@,
        ),
{
    let ghost cmdv = cmd@;
    let ghost zv = zargs@;
    let ghost pre_st = *storage;
    let outcome: Result<(CommandResponse, Effects), Vec<u8>> = match storage.execute_write_basic(
        cmd,
        now,
    ) {
        Ok(out) => out,
        Err(back) => {
            proof {
                crate::store::lemma_same_entries_same_obs(pre_st, *storage);
                match cmdv {
                    CommandV::XRead { streams, block } => {
                        crate::stream::lemma_xread_same_entries(pre_st, *storage, streams, now);
                    },
                    _ => {},
                }
            }
            match storage.execute_write_collections(back, zargs, now, gen_ms) {
                Ok(out) => out,
                Err(_) => Ok((CommandResponse::Value(unsupported_in_multi()), zero_effects())),
            }
        },
    };
    let resfin: (RespValue, u64) = match outcome {
        Ok((CommandResponse::Value(v), ef)) => (v, ef.changes),
        Ok((_, _)) => (unsupported_in_multi(), 0),
        Err(e) => (RespValue::Error(e), 0),
    };
    proof {
        let it = resfin.0@;
        let d = config.rdb_dir@;
        let f = config.rdb_filename@;
        assert(cmdv is XRead ==> batch_step(pre_st, *storage, cmdv, zv, d, f, now, gen_ms, it));
        assert(cmdv is FlushDb ==> batch_step(pre_st, *storage, cmdv, zv, d, f, now, gen_ms, it));
        assert(cmdv is SetKv ==> batch_step(pre_st, *storage, cmdv, zv, d, f, now, gen_ms, it));
        assert(cmdv is Del ==> batch_step(pre_st, *storage, cmdv, zv, d, f, now, gen_ms, it));
        assert(cmdv is Incr ==> batch_step(pre_st, *storage, cmdv, zv, d, f, now, gen_ms, it));
        assert(cmdv is Push ==> batch_step(pre_st, *storage, cmdv, zv, d, f, now, gen_ms, it));
        assert(cmdv is Pop ==> batch_step(pre_st, *storage, cmdv, zv, d, f, now, gen_ms, it));
        assert(cmdv is BPop ==> batch_step(pre_st, *storage, cmdv, zv, d, f, now, gen_ms, it));
        assert(cmdv is SAdd ==> batch_step(pre_st, *storage, cmdv, zv, d, f, now, gen_ms, it));
        assert(cmdv is SRem ==> batch_step(pre_st, *storage, cmdv, zv, d, f, now, gen_ms, it));
        assert(cmdv is ZAdd ==> batch_step(pre_st, *storage, cmdv, zv, d, f, now, gen_ms, it));
        assert(cmdv is ZRem ==> batch_step(pre_st, *storage, cmdv, zv, d, f, now, gen_ms, it));
        assert(cmdv is XAdd ==> batch_step(pre_st, *storage, cmdv, zv, d, f, now, gen_ms, it));
        assert(batch_step(pre_st, *storage, cmdv, zv, d, f, now, gen_ms, it));
    }
    resfin
}

/// The vocabulary of `batch_step` never reads the scores or the clock for a
/// read command, so the recorded step is insensitive to them there.
proof fn lemma_step_read_params(
    pre: MemoryStorage,
    post: MemoryStorage,
    c: CommandV,
    z1: Seq<ZAddEntry>,
    z2: Seq<ZAddEntry>,
    d: Seq<u8>,
    f: Seq<u8>,
    now: u64,
    g1: u64,
    g2: u64,
    item: RespV,
)
    requires
        !is_write_cmd(c),
        batch_step(pre, post, c, z1, d, f, now, g1, item),
    ensures
        batch_step(pre, post, c, z2, d, f, now, g2, item),
{
}

/// Run one command against the store: the dispatch all execution goes
/// through. The outcome is the reply frame a MULTI batch records for it
/// (non-value outcomes answer the unsupported error) and the change count.
#[verifier::rlimit(100)]
pub fn execute_step(
    storage: &mut MemoryStorage,
    cmd: Command,
    zargs: Vec<ZAddEntry>,
    config: &Config,
    now: u64,
    gen_ms: u64,
) -> (r: (RespValue, u64))
    requires
        old(storage).wf(),
        batch_cmd_ok(cmd@, zargs@),
    ensures
        final(storage).wf(),
        batch_step(
            *old(storage),
            *final(storage),
            cmd@,
            zargs@,
            config.rdb_dir@,
            config.rdb_filename@,
            now,
            gen_ms,
            r.0@,
        ),
{
    let ghost cmdv = cmd@;
    let ghost zv = zargs@;
    match step_readctl(storage, &cmd, config, now) {
        Some(out) => {
            proof {
                if !is_write_cmd(cmdv) {
                    lemma_step_read_params(
                        *storage,
                        *storage,
                        cmdv,
                        Seq::empty(),
                        zv,
                        config.rdb_dir@,
                        config.rdb_filename@,
                        now,
                        0,
                        gen_ms,
                        out.0@,
                    );
                }
            }
            out
        },
        None => step_write(storage, cmd, zargs, config, now, gen_ms),
    }
}

/// EXEC: run the queued commands in order under this single store borrow;
/// one reply element per command, in order. Element `i` is what running
/// command `i` on the store left by commands `0..i` yields (`batch_step`),
/// and the final store is the result of the whole sequence.
#[verifier::loop_isolation(false)]
#[verifier::rlimit(100)]
pub fn exec_batch(
    storage: &mut MemoryStorage,
    cmds: Vec<(Command, Vec<ZAddEntry>)>,
    config: &Config,
    now: u64,
    gen_ms: u64,
) -> (r: (RespValue, u64))
    requires
        old(storage).wf(),
        forall|i: int|
            0 <= i < cmds@.len() ==> batch_cmd_ok((#[trigger] cmds@[i]).0@, cmds@[i].1@),
    ensures
        final(storage).wf(),
        r.0@ matches crate::resp::RespV::Arr(items) && items.len() == cmds@.len() && (exists|
            chain: Seq<MemoryStorage>,
        |
            chain.len() == cmds@.len() + 1 && chain[0] == *old(storage) && chain[cmds@.len() as int]
                == *final(storage) && (forall|i: int|
                0 <= i < cmds@.len() ==> batch_step(
                    #[trigger] chain[i],
                    chain[i + 1],
                    cmds@[i].0@,
                    cmds@[i].1@,
                    config.rdb_dir@,
                    config.rdb_filename@,
                    now,
                    gen_ms,
                    items[i],
                ))),
{
    let mut items: Vec<RespValue> = Vec::new();
    let mut changes: u64 = 0;
    let mut rest = cmds;
    let ghost cv = cmds@;
    let ghost n = cv.len();
    let ghost mut chain: Seq<MemoryStorage> = seq![*storage];
    while rest.len() > 0
        invariant
            storage.wf(),
            items@.len() + rest@.len() == n,
            forall|x: int| 0 <= x < rest@.len() ==> #[trigger] rest@[x] == cv[items@.len() + x],
            chain.len() == items@.len() + 1,
            chain[0] == *old(storage),
            chain[items@.len() as int] == *storage,
            forall|i: int|
                0 <= i < items@.len() ==> batch_step(
                    #[trigger] chain[i],
                    chain[i + 1],
                    cv[i].0@,
                    cv[i].1@,
                    config.rdb_dir@,
                    config.rdb_filename@,
                    now,
                    gen_ms,
                    crate::resp::views_of(items@)[i],
                ),
        decreases rest@.len(),
    {
        let ghost done = items@.len() as int;
        let ghost prer = rest@;
        let (cmd, zargs) = rest.remove(0);
        proof {
            assert(forall|x: int| 0 <= x < rest@.len() ==> #[trigger] rest@[x] == prer[x + 1]);
            assert((cmd, zargs) == cv[done]);
            assert(batch_cmd_ok(cv[done].0@, cv[done].1@));
        }
        let ghost cmdv = cmd@;
        let ghost zv = zargs@;
        let ghost pre_st = *storage;
        let (item, ch) = execute_step(storage, cmd, zargs, config, now, gen_ms);
        if ch > u64::MAX - changes {
            changes = u64::MAX;
        } else {
            changes = changes + ch;
        }
        let ghost preitems = items@;
        items.push(item);
        proof {
            chain = chain.push(*storage);
            assert(forall|x: int| 0 <= x < preitems.len() ==> #[trigger] items@[x] == preitems[x]);
            assert forall|i: int| 0 <= i < items@.len() implies batch_step(
                #[trigger] chain[i],
                chain[i + 1],
                cv[i].0@,
                cv[i].1@,
                config.rdb_dir@,
                config.rdb_filename@,
                now,
                gen_ms,
                crate::resp::views_of(items@)[i],
            ) by {
                assert(crate::resp::views_of(items@)[i] == items@[i]@);
                if i < done {
                    assert(chain[i] == chain.drop_last()[i]);
                    assert(chain[i + 1] == chain.drop_last()[i + 1]);
                    assert(crate::resp::views_of(preitems)[i] == preitems[i]@);
                }
            }
        }
    }
    let ghost final_items = crate::resp::views_of(items@);
    let out = RespValue::Array(items);
    proof {
        let a = out@->Arr_0;
        assert(a.len() == n);
        assert forall|x: int| 0 <= x < a.len() implies a[x] == final_items[x] by {
            assert(crate::resp::views_of(out.arrow_Array_0()@)[x] == out.arrow_Array_0()@[x]@);
        }
        assert(a =~= final_items);
    }
    (out, changes)
}

/// No follow-up work.
fn zero_effects() -> (r: Effects)
    ensures
        r.changes == 0,
        r.notify_bpop is None,
        r.notify_xread is None,
{
    Effects { changes: 0, notify_bpop: None, notify_xread: None }
}

} // verus!

verus! {

/// Store observed unchanged.
pub open spec fn same_store(pre: MemoryStorage, post: MemoryStorage) -> bool {
    post.entries@ == pre.entries@
}

/// The unsupported-in-MULTI error frame.
pub open spec fn unsup_item() -> RespV {
    RespV::Error(s_unsupported_in_multi())
}

/// One step of batch execution: command `c`, with its resolved scores, run
/// against `pre`, yields the reply `item` and the store `post`. Commands
/// whose outcome is not an immediate value answer the unsupported error and
/// leave the store alone. Built from the executors' own spec vocabulary.
pub open spec fn batch_step(
    pre: MemoryStorage,
    post: MemoryStorage,
    c: CommandV,
    zargs: Seq<ZAddEntry>,
    cfgdir: Seq<u8>,
    cfgfile: Seq<u8>,
    now: u64,
    gen_ms: u64,
    item: RespV,
) -> bool {
    match c {
        CommandV::Ping => item == RespV::Simple(crate::exec::s_pong()) && same_store(pre, post),
        CommandV::Echo { message } => item == RespV::Str(message) && same_store(pre, post),
        CommandV::Multi => item == unsup_item() && same_store(pre, post),
        CommandV::Exec => item == RespV::Error(crate::exec::s_exec_no_multi()) && same_store(
            pre,
            post,
        ),
        CommandV::Discard => item == RespV::Error(crate::exec::s_discard_no_multi())
            && same_store(pre, post),
        CommandV::Auth { .. } => item == unsup_item() && same_store(pre, post),
        CommandV::Subscribe { .. } => item == unsup_item() && same_store(pre, post),
        CommandV::Publish { .. } => item == unsup_item() && same_store(pre, post),
        CommandV::Keys => item == crate::exec::arr_of_strs(
            crate::store::keys_of(crate::store::live_filter(pre.entries@, now)),
        ) && same_store(pre, post),
        CommandV::ConfigGet { param } => ((param == crate::exec::s_dir() && item
            == crate::exec::arr_of_strs(seq![param, cfgdir])) || (param
            == crate::exec::s_dbfilename() && item == crate::exec::arr_of_strs(
            seq![param, cfgfile],
        )) || (param != crate::exec::s_dir() && param != crate::exec::s_dbfilename() && item
            == RespV::Error(crate::exec::s_bad_param()))) && same_store(pre, post),
        CommandV::Get { key } => item == (match pre.spec_get(key, now) {
            Some(crate::store::VModel::MStr(b)) => RespV::Str(b),
            _ => RespV::NilStr,
        }) && same_store(pre, post),
        CommandV::Type { key } => item == RespV::Simple(
            crate::store::spec_kind(pre.spec_get(key, now)),
        ) && same_store(pre, post),
        CommandV::Ttl { key } => item == RespV::Int(
            crate::store::spec_ttl(pre.spec_entry(key), now),
        ) && same_store(pre, post),
        CommandV::DbSize => item == RespV::Int(
            if crate::store::live_filter(pre.entries@, now).len() <= i64::MAX {
                crate::store::live_filter(pre.entries@, now).len() as int
            } else {
                0
            },
        ) && same_store(pre, post),
        CommandV::LLen { key } => item == RespV::Int(
            match pre.spec_get(key, now) {
                Some(crate::store::VModel::MList(l)) => if l.len() <= i64::MAX {
                    l.len() as int
                } else {
                    0
                },
                _ => 0,
            },
        ) && same_store(pre, post),
        CommandV::LRange { key, start, stop } => item == crate::exec::arr_of_strs(
            match pre.spec_get(key, now) {
                Some(crate::store::VModel::MList(l)) => crate::list::spec_range(l, start, stop),
                _ => Seq::<Seq<u8>>::empty(),
            },
        ) && same_store(pre, post),
        CommandV::SCard { key } => (match pre.spec_get(key, now) {
            Some(crate::store::VModel::MSet(s)) => item == RespV::Int(
                if s.len() <= i64::MAX {
                    s.len() as int
                } else {
                    0
                },
            ),
            None => item == RespV::Int(0),
            Some(_) => item == RespV::Error(crate::set::spec_not_set()),
        }) && same_store(pre, post),
        CommandV::SMembers { key } => (match pre.spec_get(key, now) {
            Some(crate::store::VModel::MSet(s)) => item == crate::exec::arr_of_strs(s),
            None => item == crate::exec::arr_of_strs(Seq::empty()),
            Some(_) => item == RespV::Error(crate::set::spec_not_set()),
        }) && same_store(pre, post),
        CommandV::SIsMember { key, member } => (match pre.spec_get(key, now) {
            Some(crate::store::VModel::MSet(s)) => item == RespV::Int(
                if crate::set::seq_contains(s, member) {
                    1int
                } else {
                    0int
                },
            ),
            None => item == RespV::Int(0),
            Some(_) => item == RespV::Error(crate::set::spec_not_set()),
        }) && same_store(pre, post),
        CommandV::ZCard { key } => (match pre.spec_get(key, now) {
            Some(crate::store::VModel::MZSet(sm, _)) => item == RespV::Int(
                if sm.len() <= i64::MAX {
                    sm.len() as int
                } else {
                    0
                },
            ),
            None => item == RespV::Int(0),
            Some(_) => item == RespV::Error(crate::sorted_set::spec_not_zset()),
        }) && same_store(pre, post),
        CommandV::ZScore { key, member } => (match pre.spec_get(key, now) {
            Some(crate::store::VModel::MZSet(sm, _)) => (crate::sorted_set::z_find(sm, member)
                != -1 && item == RespV::Str(sm[crate::sorted_set::z_find(sm, member)].2)) || (
            crate::sorted_set::z_find(sm, member) == -1 && item == RespV::NilStr),
            None => item == RespV::NilStr,
            Some(_) => item == RespV::Error(crate::sorted_set::spec_not_zset()),
        }) && same_store(pre, post),
        CommandV::ZRank { key, member } => (match pre.spec_get(key, now) {
            Some(crate::store::VModel::MZSet(_, rm)) => (item matches RespV::Int(x) && 0 <= x
                < rm.len() && rm[x].1 == member) || (item is NilStr && (!(exists|j: int|
                0 <= j < rm.len() && (#[trigger] rm[j]).1 == member) || rm.len() > i64::MAX)),
            None => item == RespV::NilStr,
            Some(_) => item == RespV::Error(crate::sorted_set::spec_not_zset()),
        }) && same_store(pre, post),
        CommandV::ZRange { key, start, stop } => (match pre.spec_get(key, now) {
            Some(crate::store::VModel::MZSet(_, rm)) => item == crate::exec::arr_of_strs(
                crate::list::spec_range(crate::sorted_set::ranked_members(rm), start, stop),
            ),
            None => item == crate::exec::arr_of_strs(Seq::empty()),
            Some(_) => item == RespV::Error(crate::sorted_set::spec_not_zset()),
        }) && same_store(pre, post),
        CommandV::XLen { key } => item == RespV::Int(
            match pre.spec_get(key, now) {
                Some(crate::store::VModel::MStream(sm)) => if sm.len() <= i64::MAX {
                    sm.len() as int
                } else {
                    0
                },
                _ => 0,
            },
        ) && same_store(pre, post),
        CommandV::XRange { key, start, end } => ({
            let lo = if start =~= seq![45u8] {
                Some((0u64, 0u64))
            } else {
                crate::stream::spec_parse_plain_id(start, 0)
            };
            let hi = if end =~= seq![43u8] {
                Some((u64::MAX, u64::MAX))
            } else {
                crate::stream::spec_parse_plain_id(end, u64::MAX)
            };
            ((lo is Some && hi is Some && item == RespV::Arr(
                crate::exec::records_frame(
                    match pre.spec_get(key, now) {
                        Some(crate::store::VModel::MStream(sm)) => crate::stream::spec_range_records(
                            sm,
                            lo->0,
                            hi->0,
                        ),
                        _ => Seq::empty(),
                    },
                ),
            )) || ((lo is None || hi is None) && item == RespV::Error(
                crate::stream::spec_invalid_id(),
            )))
        }) && same_store(pre, post),
        CommandV::FlushDb => item == RespV::Simple(crate::exec::s_ok()) && post.entries@.len()
            == 0,
        CommandV::SetKv { key, val, ttl } => item == RespV::Simple(crate::exec::s_ok())
            && post.spec_entry(key) == Some(
            (crate::store::spec_deadline(ttl, now), crate::store::VModel::MStr(val)),
        ) && (forall|k2: Seq<u8>|
            k2 != key ==> #[trigger] post.spec_entry(k2) == pre.spec_entry(k2)),
        CommandV::Del { keys } => item == RespV::Int(crate::exec::spec_del_count(pre, keys)) && (
        forall|k2: Seq<u8>|
            #[trigger] post.spec_entry(k2) == (if crate::set::seq_contains(keys, k2) {
                None
            } else {
                pre.spec_entry(k2)
            })),
        CommandV::Incr { key } => (match crate::store::spec_incr_ok(pre, key, now) {
            Some(n) => item == RespV::Int(n) && post.spec_entry(key) == Some(
                (None::<u64>, crate::store::VModel::MStr(crate::util::dec_repr_i(n))),
            ),
            None => item == RespV::Error(crate::store::spec_incr_error()) && same_store(
                pre,
                post,
            ),
        }) && (forall|k2: Seq<u8>|
            k2 != key ==> #[trigger] post.spec_entry(k2) == pre.spec_entry(k2)),
        CommandV::Push { key, elems, dir } => ({
            if pre.spec_get(key, now) matches Some(w) && !(w is MList) {
                item == RespV::Error(crate::list::spec_not_list()) && same_store(pre, post)
            } else {
                let base = match pre.spec_get(key, now) {
                    Some(crate::store::VModel::MList(l)) => l,
                    _ => Seq::empty(),
                };
                let newl = crate::list::spec_push_list(base, elems, dir);
                &&& item == RespV::Int(
                    if newl.len() <= i64::MAX {
                        newl.len() as int
                    } else {
                        0
                    },
                )
                &&& (post.spec_entry(key) matches Some(e2) && e2.1 == crate::store::VModel::MList(
                    newl,
                ))
                &&& (forall|k2: Seq<u8>|
                    k2 != key ==> #[trigger] post.spec_entry(k2) == pre.spec_entry(k2))
            }
        }),
        CommandV::Pop { key, dir, count } => ({
            let l = match pre.spec_get(key, now) {
                Some(crate::store::VModel::MList(l)) => l,
                _ => Seq::empty(),
            };
            let out = crate::list::spec_pop_list(l, dir, count);
            &&& (pre.spec_get(key, now) matches Some(crate::store::VModel::MList(_)) ==> ({
                &&& (count == 1 ==> item == RespV::Str(out.0[0]))
                &&& (count != 1 ==> item == crate::exec::arr_of_strs(out.0))
                &&& post.spec_entry(key) == (if out.1.len() == 0 {
                    None::<(Option<u64>, crate::store::VModel)>
                } else {
                    Some(
                        (
                            crate::list::entry_expiry(pre.spec_entry(key)),
                            crate::store::VModel::MList(out.1),
                        ),
                    )
                })
            }))
            &&& (!(pre.spec_get(key, now) matches Some(crate::store::VModel::MList(_))) ==> item
                == RespV::NilStr && same_store(pre, post))
            &&& (forall|k2: Seq<u8>|
                k2 != key ==> #[trigger] post.spec_entry(k2) == pre.spec_entry(k2))
        }),
        CommandV::BPop { key, dir, .. } => ({
            if pre.spec_get(key, now) matches Some(crate::store::VModel::MList(_)) {
                let l = match pre.spec_get(key, now) {
                    Some(crate::store::VModel::MList(l)) => l,
                    _ => Seq::empty(),
                };
                let out = crate::list::spec_pop_list(l, dir, 1);
                &&& item == RespV::Arr(seq![RespV::Str(key), RespV::Str(out.0[0])])
                &&& post.spec_entry(key) == (if out.1.len() == 0 {
                    None::<(Option<u64>, crate::store::VModel)>
                } else {
                    Some(
                        (
                            crate::list::entry_expiry(pre.spec_entry(key)),
                            crate::store::VModel::MList(out.1),
                        ),
                    )
                })
                &&& (forall|k2: Seq<u8>|
                    k2 != key ==> #[trigger] post.spec_entry(k2) == pre.spec_entry(k2))
            } else {
                item == unsup_item() && same_store(pre, post)
            }
        }),
        CommandV::SAdd { key, members } => ({
            if pre.spec_get(key, now) matches Some(w) && !(w is MSet) {
                item == RespV::Error(crate::set::spec_not_set()) && same_store(pre, post)
            } else {
                let base = match pre.spec_get(key, now) {
                    Some(crate::store::VModel::MSet(s)) => s,
                    _ => Seq::empty(),
                };
                let out = crate::set::spec_sadd(base, members);
                &&& item == RespV::Int(out.1)
                &&& (post.spec_entry(key) matches Some(e2) && e2.1 == crate::store::VModel::MSet(
                    out.0,
                ))
                &&& (forall|k2: Seq<u8>|
                    k2 != key ==> #[trigger] post.spec_entry(k2) == pre.spec_entry(k2))
            }
        }),
        CommandV::SRem { key, members } => (match pre.spec_get(key, now) {
            Some(crate::store::VModel::MSet(base)) => ({
                let out = crate::set::spec_srem(base, members);
                &&& item == RespV::Int(out.1)
                &&& post.spec_entry(key) == (if out.0.len() == 0 {
                    None::<(Option<u64>, crate::store::VModel)>
                } else {
                    Some(
                        (
                            crate::list::entry_expiry(pre.spec_entry(key)),
                            crate::store::VModel::MSet(out.0),
                        ),
                    )
                })
            }),
            None => item == RespV::Int(0) && same_store(pre, post),
            Some(_) => item == RespV::Error(crate::set::spec_not_set()) && same_store(pre, post),
        }) && (forall|k2: Seq<u8>|
            k2 != key ==> #[trigger] post.spec_entry(k2) == pre.spec_entry(k2)),
        CommandV::ZAdd { key, .. } => ({
            if pre.spec_get(key, now) matches Some(w) && !(w is MZSet) {
                item == RespV::Error(crate::sorted_set::spec_not_zset()) && same_store(pre, post)
            } else {
                let base = match pre.spec_get(key, now) {
                    Some(crate::store::VModel::MZSet(sm, _)) => sm,
                    _ => Seq::empty(),
                };
                let out = crate::sorted_set::spec_zadd_scores(
                    base,
                    crate::sorted_set::zargs_model(zargs),
                );
                &&& item == RespV::Int(out.1)
                &&& (post.spec_entry(key) matches Some(e2) && (
                e2.1 matches crate::store::VModel::MZSet(sm2, _) && sm2 == out.0))
                &&& (forall|k2: Seq<u8>|
                    k2 != key ==> #[trigger] post.spec_entry(k2) == pre.spec_entry(k2))
            }
        }),
        CommandV::ZRem { key, members } => (match pre.spec_get(key, now) {
            Some(crate::store::VModel::MZSet(sm, _)) => ({
                let out = crate::sorted_set::spec_zrem_scores(sm, members);
                &&& item == RespV::Int(out.1)
                &&& (out.0.len() == 0 ==> post.spec_entry(key) is None)
                &&& (out.0.len() > 0 ==> (post.spec_entry(key) matches Some(e2) && e2.0
                    == crate::list::entry_expiry(pre.spec_entry(key)) && (
                e2.1 matches crate::store::VModel::MZSet(sm2, _) && sm2 == out.0)))
            }),
            None => item == RespV::Int(0) && same_store(pre, post),
            Some(_) => item == RespV::Error(crate::sorted_set::spec_not_zset()) && same_store(
                pre,
                post,
            ),
        }) && (forall|k2: Seq<u8>|
            k2 != key ==> #[trigger] post.spec_entry(k2) == pre.spec_entry(k2)),
        CommandV::XAdd { key, id, data } => ({
            let base = match pre.spec_get(key, now) {
                Some(crate::store::VModel::MStream(sm)) => sm,
                _ => Seq::empty(),
            };
            let top = crate::stream::stream_top(base);
            let wrong_type = pre.spec_get(key, now) matches Some(w) && !(w is MStream);
            if !wrong_type && (crate::stream::spec_parse_add_id(id, gen_ms, top) matches Some(nid)
                && nid != (0u64, 0u64) && (crate::stream::id_lt(top.0, top.1, nid.0, nid.1)
                || base.len() == 0)) {
                let nid = (crate::stream::spec_parse_add_id(id, gen_ms, top))->0;
                &&& item == RespV::Str(crate::exec::id_text(nid.0, nid.1))
                &&& (post.spec_entry(key) matches Some(e2) && (
                e2.1 matches crate::store::VModel::MStream(sm2) && sm2 == base.push(
                    (nid.0, nid.1, data),
                )))
                &&& (forall|k2: Seq<u8>|
                    k2 != key ==> #[trigger] post.spec_entry(k2) == pre.spec_entry(k2))
            } else {
                item is Error && same_store(pre, post)
            }
        }),
        CommandV::XRead { streams, block } => (match crate::stream::spec_xread(
            pre,
            streams,
            now,
        ) {
            None => item == RespV::Error(crate::stream::spec_invalid_id()),
            Some((ps, rs)) => (rs.len() > 0 && item == crate::exec::xread_reply(rs)) || (rs.len()
                == 0 && block is Some && item == unsup_item()) || (rs.len() == 0 && block is None
                && item == RespV::NilArr),
        }) && same_store(pre, post),
    }
}

} // verus!
