//! The command model: argument handling and parsing of a frame into a typed
//! command.

use vstd::prelude::*;

use crate::list::ListDirection;
use crate::resp::{RespV, RespValue};
use crate::store::{clone_bytes, seq_views};
use crate::util::{eq_ignore_case, parse_i64, parse_u64, spec_parse_i64, spec_parse_u64, to_upper, upper};

verus! {

/// The bytes of a string frame, if it is one.
pub open spec fn abytes(v: RespValue) -> Option<Seq<u8>> {
    match v@ {
        RespV::Str(b) => Some(b),
        RespV::Simple(b) => Some(b),
        _ => None,
    }
}

/// The models of a run of frames' string payloads, greedily taken from the
/// front while the frames are strings; and what remains.
pub open spec fn spec_take_strs(args: Seq<RespValue>) -> (Seq<Seq<u8>>, Seq<RespValue>)
    decreases args.len(),
{
    if args.len() == 0 {
        (Seq::empty(), args)
    } else {
        match abytes(args[0]) {
            None => (Seq::empty(), args),
            Some(b) => {
                let r = spec_take_strs(args.drop_first());
                (seq![b] + r.0, r.1)
            },
        }
    }
}

/// A named optional argument: find the first string frame that equals `name`
/// up to ASCII case and is followed by anything; yield that follower's bytes
/// (nothing when the follower is not a string) and the run with both frames
/// removed.
pub open spec fn spec_named(args: Seq<RespValue>, name: Seq<u8>) -> (
    Option<Option<Seq<u8>>>,
    Seq<RespValue>,
)
    decreases args.len(),
{
    if args.len() == 0 {
        (None, args)
    } else {
        let is_flag = match abytes(args[0]) {
            Some(b) => upper(b) == upper(name),
            None => false,
        };
        if is_flag && args.len() >= 2 {
            (Some(abytes(args[1])), args.drop_first().drop_first())
        } else {
            let r = spec_named(args.drop_first(), name);
            match r.0 {
                None => (None, args),
                Some(v) => (Some(v), seq![args[0]] + r.1),
            }
        }
    }
}

/// The parsed command name and its argument frames.
pub struct Arguments {
    /// Uppercase command name
    pub command: Vec<u8>,
    /// Remaining argument frames, in order
    pub args: Vec<RespValue>,
}

/// The error for a frame that is not a command array.
pub open spec fn spec_no_command() -> Seq<u8> {
    seq![78u8, 111u8, 32u8, 99u8, 111u8, 109u8, 109u8, 97u8, 110u8, 100u8, 32u8, 103u8, 105u8, 118u8, 101u8, 110u8]
}

/// The error for a command name that is not a string.
pub open spec fn spec_invalid_command() -> Seq<u8> {
    seq![73u8, 110u8, 118u8, 97u8, 108u8, 105u8, 100u8, 32u8, 99u8, 111u8, 109u8, 109u8, 97u8, 110u8, 100u8]
}

fn no_command() -> (r: Vec<u8>)
    ensures
        r@ == spec_no_command(),
{
    let mut v: Vec<u8> = Vec::new();
    v.push(78);
    v.push(111);
    v.push(32);
    v.push(99);
    v.push(111);
    v.push(109);
    v.push(109);
    v.push(97);
    v.push(110);
    v.push(100);
    v.push(32);
    v.push(103);
    v.push(105);
    v.push(118);
    v.push(101);
    v.push(110);
    assert(v@ =~= spec_no_command());
    v
}

fn invalid_command() -> (r: Vec<u8>)
    ensures
        r@ == spec_invalid_command(),
{
    let mut v: Vec<u8> = Vec::new();
    v.push(73);
    v.push(110);
    v.push(118);
    v.push(97);
    v.push(108);
    v.push(105);
    v.push(100);
    v.push(32);
    v.push(99);
    v.push(111);
    v.push(109);
    v.push(109);
    v.push(97);
    v.push(110);
    v.push(100);
    assert(v@ =~= spec_invalid_command());
    v
}

impl Arguments {
    /// Split a raw frame into an uppercased command name and its arguments.
    pub fn from_raw_value(raw: RespValue) -> (r: Result<Arguments, Vec<u8>>)
        ensures
            match r {
                Ok(a) => ({
                    &&& raw@ matches RespV::Arr(vs) && vs.len() >= 1
                    &&& (raw matches RespValue::Array(items) && abytes(items@[0]) matches Some(b)
                        && a.command@ == upper(b) && a.args@ == items@.drop_first())
                }),
                Err(e) => (!(raw@ is Arr) && e@ == spec_no_command()) || (
                raw@ is Arr && e@ == spec_invalid_command() && (raw matches RespValue::Array(items)
                    && (items@.len() == 0 || abytes(items@[0]) is None))),
            },
    {
        let items = match raw {
            RespValue::Array(items) => items,
            other => {
                proof {
                    match other {
                        RespValue::Array(_) => {
                            assert(false);
                        },
                        _ => {},
                    }
                }
                return Err(no_command());
            },
        };
        if items.len() == 0 {
            return Err(invalid_command());
        }
        let mut rest = items;
        let first = rest.remove(0);
        let name = match first {
            RespValue::String(b) => b,
            RespValue::SimpleString(b) => b,
            _ => {
                return Err(invalid_command());
            },
        };
        let command = to_upper(name.as_slice());
        Ok(Arguments { command, args: rest })
    }

    /// Pop the next argument's bytes or fail.
    pub fn pop(&mut self) -> (r: Result<Vec<u8>, Vec<u8>>)
        ensures
            match r {
                Ok(b) => old(self).args@.len() >= 1 && abytes(old(self).args@[0]) == Some(b@)
                    && final(self).args@ == old(self).args@.drop_first(),
                Err(e) => (old(self).args@.len() == 0 || abytes(old(self).args@[0]) is None) && e@
                    == spec_missing_arg(old(self).command@)
                    && final(self).args@ == old(self).args@,
            },
            final(self).command@ == old(self).command@,
    {
        if self.args.len() == 0 {
            return Err(missing_arg(&self.command));
        }
        let first = self.args.remove(0);
        match first {
            RespValue::String(b) => Ok(b),
            RespValue::SimpleString(b) => Ok(b),
            other => {
                let ghost dropped = old(self).args@[0];
                self.args.insert(0, other);
                proof {
                    assert(self.args@ =~= old(self).args@);
                }
                Err(missing_arg(&self.command))
            },
        }
    }

    /// Pop the next argument's bytes if the next frame is a string; a
    /// non-string frame is consumed and yields nothing, as the original
    /// optional pop does.
    pub fn pop_optional(&mut self) -> (r: Option<Vec<u8>>)
        ensures
            match r {
                Some(b) => old(self).args@.len() >= 1 && abytes(old(self).args@[0]) == Some(b@)
                    && final(self).args@ == old(self).args@.drop_first(),
                None => (old(self).args@.len() == 0 && final(self).args@ == old(self).args@) || (
                old(self).args@.len() >= 1 && abytes(old(self).args@[0]) is None
                    && final(self).args@ == old(self).args@.drop_first()),
            },
            final(self).command@ == old(self).command@,
    {
        if self.args.len() == 0 {
            return None;
        }
        let first = self.args.remove(0);
        match first {
            RespValue::String(b) => Some(b),
            RespValue::SimpleString(b) => Some(b),
            _ => None,
        }
    }

    /// All remaining string arguments, greedily from the front; the frames
    /// consumed are gone.
    #[verifier::loop_isolation(false)]
    pub fn take_strings(&mut self) -> (r: Vec<Vec<u8>>)
        ensures
            seq_views(r@) == spec_take_strs(old(self).args@).0,
            final(self).args@ == spec_take_strs(old(self).args@).1,
            final(self).command@ == old(self).command@,
    {
        let mut out: Vec<Vec<u8>> = Vec::new();
        proof {
            assert(seq_views(out@) =~= Seq::<Seq<u8>>::empty());
        }
        loop
            invariant
                self.command@ == old(self).command@,
                spec_take_strs(old(self).args@).0 =~= seq_views(out@) + spec_take_strs(
                    self.args@,
                ).0,
                spec_take_strs(old(self).args@).1 == spec_take_strs(self.args@).1,
            decreases self.args@.len(),
        {
            if self.args.len() == 0 {
                break ;
            }
            let is_str = match &self.args[0] {
                RespValue::String(_) => true,
                RespValue::SimpleString(_) => true,
                _ => false,
            };
            if !is_str {
                break ;
            }
            let ghost pre = self.args@;
            let first = self.args.remove(0);
            let b = match first {
                RespValue::String(b) => b,
                RespValue::SimpleString(b) => b,
                _ => {
                    proof {
                        assert(false);
                    }
                    Vec::new()
                },
            };
            let ghost preo = out@;
            out.push(b);
            proof {
                assert(self.args@ =~= pre.drop_first());
                assert forall|x: int| 0 <= x < out@.len() implies #[trigger] seq_views(out@)[x]
                    == (seq_views(preo).push(abytes(pre[0])->0))[x] by {
                    if x < preo.len() {
                        assert(out@[x] == preo[x]);
                    }
                }
                assert(seq_views(out@) =~= seq_views(preo).push(abytes(pre[0])->0));
                assert(seq_views(preo) + (seq![abytes(pre[0])->0] + spec_take_strs(
                    pre.drop_first(),
                ).0) =~= seq_views(out@) + spec_take_strs(pre.drop_first()).0);
            }
        }
        proof {
            assert(spec_take_strs(self.args@).0 =~= Seq::<Seq<u8>>::empty());
            assert(seq_views(out@) + Seq::<Seq<u8>>::empty() =~= seq_views(out@));
        }
        out
    }

    /// A named optional argument (`EX 100`, `BLOCK 0`): scan for the flag,
    /// remove it and its follower, and yield the follower's bytes.
    #[verifier::loop_isolation(false)]
    pub fn pop_optional_named(&mut self, name: &[u8]) -> (r: Option<Option<Vec<u8>>>)
        ensures
            match r {
                Some(vo) => spec_named(old(self).args@, name@).0 matches Some(b) && (match vo {
                    Some(v) => b == Some(v@),
                    None => b is None,
                }) && final(self).args@ == spec_named(old(self).args@, name@).1,
                None => spec_named(old(self).args@, name@).0 is None
                    && final(self).args@ == old(self).args@,
            },
            final(self).command@ == old(self).command@,
    {
        let mut i: usize = 0;
        while i < self.args.len()
            invariant
                0 <= i <= self.args@.len(),
                self == old(self),
                forall|j: int|
                    0 <= j < i ==> !(match abytes(#[trigger] self.args@[j]) {
                        Some(b) => upper(b) == upper(name@),
                        None => false,
                    }) || (j == self.args@.len() - 1),
            decreases self.args@.len() - i,
        {
            let is_flag = match &self.args[i] {
                RespValue::String(b) => eq_ignore_case(b.as_slice(), name),
                RespValue::SimpleString(b) => eq_ignore_case(b.as_slice(), name),
                _ => false,
            };
            if is_flag && i + 1 < self.args.len() {
                let ghost pre = self.args@;
                let _flag = self.args.remove(i);
                let value = self.args.remove(i);
                let vo = match value {
                    RespValue::String(b) => Some(b),
                    RespValue::SimpleString(b) => Some(b),
                    _ => None,
                };
                proof {
                    lemma_named_at(pre, name@, i as int);
                    assert(self.args@ =~= pre.remove(i as int).remove(i as int));
                }
                return Some(vo);
            }
            i = i + 1;
        }
        proof {
            lemma_named_none(self.args@, name@, 0);
        }
        None
    }
}

/// Where the first eligible flag sits at `i`, the scan removes `i` and its
/// follower.
proof fn lemma_named_at(args: Seq<RespValue>, name: Seq<u8>, i: int)
    requires
        0 <= i < args.len() - 1,
        match abytes(args[i]) {
            Some(b) => upper(b) == upper(name),
            None => false,
        },
        forall|j: int|
            0 <= j < i ==> !(match abytes(#[trigger] args[j]) {
                Some(b) => upper(b) == upper(name),
                None => false,
            }) || (j == args.len() - 1),
    ensures
        spec_named(args, name).0 == Some(abytes(args[i + 1])),
        spec_named(args, name).1 == args.remove(i).remove(i),
    decreases i,
{
    if i == 0 {
        assert(args.drop_first().drop_first() =~= args.remove(0).remove(0));
    } else {
        assert(forall|j: int| 0 <= j < args.len() - 1 ==> #[trigger] args.drop_first()[j] == args[j
            + 1]);
        lemma_named_at(args.drop_first(), name, i - 1);
        assert(seq![args[0]] + args.drop_first().remove(i - 1).remove(i - 1) =~= args.remove(
            i,
        ).remove(i));
    }
}

/// Where no eligible flag exists, the scan leaves the run alone.
proof fn lemma_named_none(args: Seq<RespValue>, name: Seq<u8>, from: int)
    requires
        forall|j: int|
            0 <= j < args.len() ==> !(match abytes(#[trigger] args[j]) {
                Some(b) => upper(b) == upper(name),
                None => false,
            }) || (j == args.len() - 1),
    ensures
        spec_named(args, name).0 is None,
    decreases args.len(),
{
    if args.len() > 0 {
        assert(forall|j: int| 0 <= j < args.len() - 1 ==> #[trigger] args.drop_first()[j] == args[j
            + 1]);
        if args.len() >= 2 {
            assert(!(match abytes(args[0]) {
                Some(b) => upper(b) == upper(name),
                None => false,
            }));
        }
        lemma_named_none(args.drop_first(), name, 0);
    }
}

/// The "argument missing" error: the command name, then a fixed tail.
pub open spec fn spec_missing_arg(cmd: Seq<u8>) -> Seq<u8> {
    cmd + seq![58u8, 32u8, 97u8, 114u8, 103u8, 117u8, 109u8, 101u8, 110u8, 116u8, 32u8, 109u8, 105u8, 115u8, 115u8, 105u8, 110u8, 103u8]
}

fn missing_arg(cmd: &Vec<u8>) -> (r: Vec<u8>)
    ensures
        r@ == spec_missing_arg(cmd@),
{
    let mut v = clone_bytes(cmd);
    v.push(58);
    v.push(32);
    v.push(97);
    v.push(114);
    v.push(103);
    v.push(117);
    v.push(109);
    v.push(101);
    v.push(110);
    v.push(116);
    v.push(32);
    v.push(109);
    v.push(105);
    v.push(115);
    v.push(115);
    v.push(105);
    v.push(110);
    v.push(103);
    assert(v@ =~= spec_missing_arg(cmd@));
    v
}

/// A parsed command.
pub enum Command {
    Ping,
    DbSize,
    FlushDb,
    Multi,
    Exec,
    Discard,
    Keys,
    Auth { pass: Vec<u8> },
    ConfigGet { param: Vec<u8> },
    Echo { message: Vec<u8> },
    Get { key: Vec<u8> },
    SetKv { key: Vec<u8>, val: Vec<u8>, ttl: Option<u64> },
    Type { key: Vec<u8> },
    Ttl { key: Vec<u8> },
    Del { keys: Vec<Vec<u8>> },
    Incr { key: Vec<u8> },
    Push { key: Vec<u8>, elems: Vec<Vec<u8>>, dir: ListDirection },
    Pop { key: Vec<u8>, dir: ListDirection, count: i64 },
    BPop { key: Vec<u8>, dir: ListDirection, timeout_millis: u64 },
    LLen { key: Vec<u8> },
    LRange { key: Vec<u8>, start: i64, stop: i64 },
    SAdd { key: Vec<u8>, members: Vec<Vec<u8>> },
    SRem { key: Vec<u8>, members: Vec<Vec<u8>> },
    SCard { key: Vec<u8> },
    SMembers { key: Vec<u8> },
    SIsMember { key: Vec<u8>, member: Vec<u8> },
    ZAdd { key: Vec<u8>, members: Vec<(Vec<u8>, Vec<u8>)> },
    ZRank { key: Vec<u8>, member: Vec<u8> },
    ZScore { key: Vec<u8>, member: Vec<u8> },
    ZRange { key: Vec<u8>, start: i64, stop: i64 },
    ZCard { key: Vec<u8> },
    ZRem { key: Vec<u8>, members: Vec<Vec<u8>> },
    XAdd { key: Vec<u8>, id: Vec<u8>, data: Vec<(Vec<u8>, Vec<u8>)> },
    XLen { key: Vec<u8> },
    XRange { key: Vec<u8>, start: Vec<u8>, end: Vec<u8> },
    XRead { streams: Vec<(Vec<u8>, Vec<u8>)>, block: Option<u64> },
    Subscribe { channels: Vec<Vec<u8>> },
    Publish { channel: Vec<u8>, message: Vec<u8> },
}

/// The model of a parsed command: every byte string as a sequence. ZADD
/// members carry `(score text, member)`; the score text is resolved to a
/// double by the caller.
#[verifier::ext_equal]
pub enum CommandV {
    Ping,
    DbSize,
    FlushDb,
    Multi,
    Exec,
    Discard,
    Keys,
    Auth { pass: Seq<u8> },
    ConfigGet { param: Seq<u8> },
    Echo { message: Seq<u8> },
    Get { key: Seq<u8> },
    SetKv { key: Seq<u8>, val: Seq<u8>, ttl: Option<u64> },
    Type { key: Seq<u8> },
    Ttl { key: Seq<u8> },
    Del { keys: Seq<Seq<u8>> },
    Incr { key: Seq<u8> },
    Push { key: Seq<u8>, elems: Seq<Seq<u8>>, dir: ListDirection },
    Pop { key: Seq<u8>, dir: ListDirection, count: int },
    BPop { key: Seq<u8>, dir: ListDirection, timeout_millis: u64 },
    LLen { key: Seq<u8> },
    LRange { key: Seq<u8>, start: int, stop: int },
    SAdd { key: Seq<u8>, members: Seq<Seq<u8>> },
    SRem { key: Seq<u8>, members: Seq<Seq<u8>> },
    SCard { key: Seq<u8> },
    SMembers { key: Seq<u8> },
    SIsMember { key: Seq<u8>, member: Seq<u8> },
    ZAdd { key: Seq<u8>, members: Seq<(Seq<u8>, Seq<u8>)> },
    ZRank { key: Seq<u8>, member: Seq<u8> },
    ZScore { key: Seq<u8>, member: Seq<u8> },
    ZRange { key: Seq<u8>, start: int, stop: int },
    ZCard { key: Seq<u8> },
    ZRem { key: Seq<u8>, members: Seq<Seq<u8>> },
    XAdd { key: Seq<u8>, id: Seq<u8>, data: Seq<(Seq<u8>, Seq<u8>)> },
    XLen { key: Seq<u8> },
    XRange { key: Seq<u8>, start: Seq<u8>, end: Seq<u8> },
    XRead { streams: Seq<(Seq<u8>, Seq<u8>)>, block: Option<u64> },
    Subscribe { channels: Seq<Seq<u8>> },
    Publish { channel: Seq<u8>, message: Seq<u8> },
}

impl View for Command {
    type V = CommandV;

    open spec fn view(&self) -> CommandV {
        match self {
            Command::Ping => CommandV::Ping,
            Command::DbSize => CommandV::DbSize,
            Command::FlushDb => CommandV::FlushDb,
            Command::Multi => CommandV::Multi,
            Command::Exec => CommandV::Exec,
            Command::Discard => CommandV::Discard,
            Command::Keys => CommandV::Keys,
            Command::Auth { pass } => CommandV::Auth { pass: pass@ },
            Command::ConfigGet { param } => CommandV::ConfigGet { param: param@ },
            Command::Echo { message } => CommandV::Echo { message: message@ },
            Command::Get { key } => CommandV::Get { key: key@ },
            Command::SetKv { key, val, ttl } => CommandV::SetKv {
                key: key@,
                val: val@,
                ttl: *ttl,
            },
            Command::Type { key } => CommandV::Type { key: key@ },
            Command::Ttl { key } => CommandV::Ttl { key: key@ },
            Command::Del { keys } => CommandV::Del { keys: seq_views(keys@) },
            Command::Incr { key } => CommandV::Incr { key: key@ },
            Command::Push { key, elems, dir } => CommandV::Push {
                key: key@,
                elems: seq_views(elems@),
                dir: *dir,
            },
            Command::Pop { key, dir, count } => CommandV::Pop {
                key: key@,
                dir: *dir,
                count: *count as int,
            },
            Command::BPop { key, dir, timeout_millis } => CommandV::BPop {
                key: key@,
                dir: *dir,
                timeout_millis: *timeout_millis,
            },
            Command::LLen { key } => CommandV::LLen { key: key@ },
            Command::LRange { key, start, stop } => CommandV::LRange {
                key: key@,
                start: *start as int,
                stop: *stop as int,
            },
            Command::SAdd { key, members } => CommandV::SAdd {
                key: key@,
                members: seq_views(members@),
            },
            Command::SRem { key, members } => CommandV::SRem {
                key: key@,
                members: seq_views(members@),
            },
            Command::SCard { key } => CommandV::SCard { key: key@ },
            Command::SMembers { key } => CommandV::SMembers { key: key@ },
            Command::SIsMember { key, member } => CommandV::SIsMember {
                key: key@,
                member: member@,
            },
            Command::ZAdd { key, members } => CommandV::ZAdd {
                key: key@,
                members: crate::stream::streams_model(members@),
            },
            Command::ZRank { key, member } => CommandV::ZRank { key: key@, member: member@ },
            Command::ZScore { key, member } => CommandV::ZScore { key: key@, member: member@ },
            Command::ZRange { key, start, stop } => CommandV::ZRange {
                key: key@,
                start: *start as int,
                stop: *stop as int,
            },
            Command::ZCard { key } => CommandV::ZCard { key: key@ },
            Command::ZRem { key, members } => CommandV::ZRem {
                key: key@,
                members: seq_views(members@),
            },
            Command::XAdd { key, id, data } => CommandV::XAdd {
                key: key@,
                id: id@,
                data: crate::stream::streams_model(data@),
            },
            Command::XLen { key } => CommandV::XLen { key: key@ },
            Command::XRange { key, start, end } => CommandV::XRange {
                key: key@,
                start: start@,
                end: end@,
            },
            Command::XRead { streams, block } => CommandV::XRead {
                streams: crate::stream::streams_model(streams@),
                block: *block,
            },
            Command::Subscribe { channels } => CommandV::Subscribe {
                channels: seq_views(channels@),
            },
            Command::Publish { channel, message } => CommandV::Publish {
                channel: channel@,
                message: message@,
            },
        }
    }
}


// ---------------------------------------------------------------------------
// Parse helpers at the model level
// ---------------------------------------------------------------------------
/// Required argument: its bytes and the rest.
pub open spec fn sp_pop(name: Seq<u8>, args: Seq<RespValue>) -> Result<
    (Seq<u8>, Seq<RespValue>),
    Seq<u8>,
> {
    if args.len() >= 1 && abytes(args[0]) is Some {
        Ok((abytes(args[0])->0, args.drop_first()))
    } else {
        Err(spec_missing_arg(name))
    }
}

/// Optional argument: its bytes if the head is a string; the head frame is
/// consumed either way when present.
pub open spec fn sp_pop_opt(args: Seq<RespValue>) -> (Option<Seq<u8>>, Seq<RespValue>) {
    if args.len() == 0 {
        (None, args)
    } else {
        (abytes(args[0]), args.drop_first())
    }
}

pub open spec fn spec_invalid_arg(name: Seq<u8>) -> Seq<u8> {
    name + seq![58u8, 32u8, 105u8, 110u8, 118u8, 97u8, 108u8, 105u8, 100u8, 32u8, 97u8, 114u8, 103u8, 117u8, 109u8, 101u8, 110u8, 116u8]
}

pub open spec fn spec_unrecognized_args() -> Seq<u8> {
    seq![85u8, 110u8, 114u8, 101u8, 99u8, 111u8, 103u8, 110u8, 105u8, 122u8, 101u8, 100u8, 32u8, 97u8, 114u8, 103u8, 117u8, 109u8, 101u8, 110u8, 116u8, 115u8]
}

pub open spec fn spec_unknown_command(name: Seq<u8>) -> Seq<u8> {
    seq![85u8, 110u8, 114u8, 101u8, 99u8, 111u8, 103u8, 110u8, 105u8, 122u8, 101u8, 100u8, 32u8, 99u8, 111u8, 109u8, 109u8, 97u8, 110u8, 100u8, 32u8, 39u8] + name + seq![39u8]
}

pub open spec fn spec_both_ex_px() -> Seq<u8> {
    seq![99u8, 97u8, 110u8, 39u8, 116u8, 32u8, 112u8, 114u8, 111u8, 118u8, 105u8, 100u8, 101u8, 32u8, 98u8, 111u8, 116u8, 104u8, 32u8, 69u8, 88u8, 32u8, 97u8, 110u8, 100u8, 32u8, 80u8, 88u8]
}

pub open spec fn spec_streams_required() -> Seq<u8> {
    seq![83u8, 84u8, 82u8, 69u8, 65u8, 77u8, 83u8, 32u8, 107u8, 101u8, 121u8, 119u8, 111u8, 114u8, 100u8, 32u8, 105u8, 115u8, 32u8, 114u8, 101u8, 113u8, 117u8, 105u8, 114u8, 101u8, 100u8]
}

pub open spec fn spec_need_stream_key() -> Seq<u8> {
    seq![77u8, 117u8, 115u8, 116u8, 32u8, 112u8, 114u8, 111u8, 118u8, 105u8, 100u8, 101u8, 32u8, 97u8, 32u8, 115u8, 116u8, 114u8, 101u8, 97u8, 109u8, 32u8, 107u8, 101u8, 121u8, 32u8, 97u8, 110u8, 100u8, 32u8, 73u8, 68u8]
}

pub open spec fn spec_unbalanced_streams() -> Seq<u8> {
    seq![85u8, 110u8, 98u8, 97u8, 108u8, 97u8, 110u8, 99u8, 101u8, 100u8, 32u8, 108u8, 105u8, 115u8, 116u8, 32u8, 111u8, 102u8, 32u8, 115u8, 116u8, 114u8, 101u8, 97u8, 109u8, 32u8, 107u8, 101u8, 121u8, 115u8, 32u8, 97u8, 110u8, 100u8, 32u8, 73u8, 68u8, 115u8]
}

/// Required u64 argument.
pub open spec fn sp_pop_u64(name: Seq<u8>, args: Seq<RespValue>) -> Result<
    (int, Seq<RespValue>),
    Seq<u8>,
> {
    match sp_pop(name, args) {
        Err(e) => Err(e),
        Ok((b, rest)) => match spec_parse_u64(b) {
            Some(v) => Ok((v, rest)),
            None => Err(spec_invalid_arg(name)),
        },
    }
}

/// Required i64 argument.
pub open spec fn sp_pop_i64(name: Seq<u8>, args: Seq<RespValue>) -> Result<
    (int, Seq<RespValue>),
    Seq<u8>,
> {
    match sp_pop(name, args) {
        Err(e) => Err(e),
        Ok((b, rest)) => match spec_parse_i64(b) {
            Some(v) => Ok((v, rest)),
            None => Err(spec_invalid_arg(name)),
        },
    }
}

/// Pairs of string arguments, greedily from the front; an unpaired leading
/// string is consumed and dropped, as the original's paired pops do.
pub open spec fn sp_pairs(args: Seq<RespValue>) -> (Seq<(Seq<u8>, Seq<u8>)>, Seq<RespValue>)
    decreases args.len(),
{
    let p1 = sp_pop_opt(args);
    match p1.0 {
        None => (Seq::empty(), p1.1),
        Some(a) => {
            let p2 = sp_pop_opt(p1.1);
            match p2.0 {
                None => (Seq::empty(), p2.1),
                Some(b) => {
                    let rec = sp_pairs(p2.1);
                    (seq![(a, b)] + rec.0, rec.1)
                },
            }
        },
    }
}

/// BLPOP/BRPOP timeout: non-negative decimal seconds with any number of
/// fractional digits, converted to milliseconds with rounding; a negative
/// decimal counts as 0 (wait forever); saturates at the largest value.
pub open spec fn spec_timeout_millis(s: Seq<u8>) -> Option<int> {
    if s.len() > 0 && s[0] == 45 {
        if is_plain_decimal(s.drop_first()) {
            Some(0)
        } else {
            None
        }
    } else if is_plain_decimal(s) {
        let cut = crate::util::find_from(s, 0, 46);
        let ip = match cut {
            None => s,
            Some(d) => s.take(d),
        };
        let fp = match cut {
            None => Seq::<u8>::empty(),
            Some(d) => s.skip(d + 1),
        };
        let v = crate::util::dec_val(ip);
        if v >= 18446744073709551 {
            Some(u64::MAX as int)
        } else {
            Some(v * 1000 + frac_millis(fp))
        }
    } else {
        None
    }
}

/// Digits, optionally a dot and more digits; the whole part must be
/// non-empty.
pub open spec fn is_plain_decimal(s: Seq<u8>) -> bool {
    match crate::util::find_from(s, 0, 46) {
        None => s.len() >= 1 && crate::util::all_digits(s),
        Some(d) => d >= 1 && crate::util::all_digits(s.take(d)) && crate::util::all_digits(
            s.skip(d + 1),
        ),
    }
}

/// The milliseconds from a fractional part: the first three digits, rounded
/// by the fourth.
pub open spec fn frac_millis(f: Seq<u8>) -> int {
    let d0 = if f.len() > 0 {
        (f[0] - 48) * 100
    } else {
        0
    };
    let d1 = if f.len() > 1 {
        (f[1] - 48) * 10
    } else {
        0
    };
    let d2 = if f.len() > 2 {
        (f[2] - 48) as int
    } else {
        0
    };
    let up = if f.len() > 3 && f[3] >= 53 {
        1int
    } else {
        0int
    };
    d0 + d1 + d2 + up
}


/// What parsing a command yields: the typed command, or the error text of
/// the first failure; leftover arguments after a parse are rejected.
pub open spec fn spec_parse_command(name: Seq<u8>, args: Seq<RespValue>) -> Result<
    CommandV,
    Seq<u8>,
> {
    if name_in_basic(name) {
        spec_parse_basic(name, args)
    } else if name_in_collections(name) {
        spec_parse_collections(name, args)
    } else if name_in_compound(name) {
        spec_parse_compound(name, args)
    } else {
        Err(spec_unknown_command(name))
    }
}

/// The simple commands: no arguments, or plain required arguments.
pub open spec fn spec_parse_basic(name: Seq<u8>, args: Seq<RespValue>) -> Result<
    CommandV,
    Seq<u8>,
> {
    if name == seq![80u8, 73u8, 78u8, 71u8] {
        sp_done(CommandV::Ping, args)
    } else if name == seq![68u8, 66u8, 83u8, 73u8, 90u8, 69u8] {
        sp_done(CommandV::DbSize, args)
    } else if name == seq![70u8, 76u8, 85u8, 83u8, 72u8, 68u8, 66u8] {
        sp_done(CommandV::FlushDb, args)
    } else if name == seq![77u8, 85u8, 76u8, 84u8, 73u8] {
        sp_done(CommandV::Multi, args)
    } else if name == seq![69u8, 88u8, 69u8, 67u8] {
        sp_done(CommandV::Exec, args)
    } else if name == seq![68u8, 73u8, 83u8, 67u8, 65u8, 82u8, 68u8] {
        sp_done(CommandV::Discard, args)
    } else if name == seq![75u8, 69u8, 89u8, 83u8] {
        sp_done(CommandV::Keys, args)
    } else if name == seq![69u8, 67u8, 72u8, 79u8] {
        match sp_pop(name, args) {
            Err(e) => Err(e),
            Ok((m, rest)) => sp_done(CommandV::Echo { message: m }, rest),
        }
    } else if name == seq![65u8, 85u8, 84u8, 72u8] {
        match sp_pop(name, args) {
            Err(e) => Err(e),
            Ok((p, rest)) => sp_done(CommandV::Auth { pass: p }, rest),
        }
    } else if name == seq![67u8, 79u8, 78u8, 70u8, 73u8, 71u8] {
        match sp_pop(name, args) {
            Err(e) => Err(e),
            Ok((sub, r1)) => if upper(sub) == seq![71u8, 69u8, 84u8] {
                match sp_pop(name, r1) {
                    Err(e) => Err(e),
                    Ok((p, rest)) => sp_done(CommandV::ConfigGet { param: p }, rest),
                }
            } else {
                Err(spec_invalid_arg(name))
            },
        }
    } else if name == seq![71u8, 69u8, 84u8] {
        match sp_pop(name, args) {
            Err(e) => Err(e),
            Ok((k, rest)) => sp_done(CommandV::Get { key: k }, rest),
        }
    } else if name == seq![84u8, 89u8, 80u8, 69u8] {
        match sp_pop(name, args) {
            Err(e) => Err(e),
            Ok((k, rest)) => sp_done(CommandV::Type { key: k }, rest),
        }
    } else if name == seq![84u8, 84u8, 76u8] {
        match sp_pop(name, args) {
            Err(e) => Err(e),
            Ok((k, rest)) => sp_done(CommandV::Ttl { key: k }, rest),
        }
    } else if name == seq![73u8, 78u8, 67u8, 82u8] {
        match sp_pop(name, args) {
            Err(e) => Err(e),
            Ok((k, rest)) => sp_done(CommandV::Incr { key: k }, rest),
        }
    } else if name == seq![76u8, 76u8, 69u8, 78u8] {
        match sp_pop(name, args) {
            Err(e) => Err(e),
            Ok((k, rest)) => sp_done(CommandV::LLen { key: k }, rest),
        }
    } else if name == seq![83u8, 67u8, 65u8, 82u8, 68u8] {
        match sp_pop(name, args) {
            Err(e) => Err(e),
            Ok((k, rest)) => sp_done(CommandV::SCard { key: k }, rest),
        }
    } else if name == seq![83u8, 77u8, 69u8, 77u8, 66u8, 69u8, 82u8, 83u8] {
        match sp_pop(name, args) {
            Err(e) => Err(e),
            Ok((k, rest)) => sp_done(CommandV::SMembers { key: k }, rest),
        }
    } else if name == seq![88u8, 76u8, 69u8, 78u8] {
        match sp_pop(name, args) {
            Err(e) => Err(e),
            Ok((k, rest)) => sp_done(CommandV::XLen { key: k }, rest),
        }
    } else if name == seq![90u8, 67u8, 65u8, 82u8, 68u8] {
        match sp_pop(name, args) {
            Err(e) => Err(e),
            Ok((k, rest)) => sp_done(CommandV::ZCard { key: k }, rest),
        }
    } else {
        Err(spec_unknown_command(name))
    }
}

/// The collection commands over lists, sets and members.
pub open spec fn spec_parse_collections(name: Seq<u8>, args: Seq<RespValue>) -> Result<
    CommandV,
    Seq<u8>,
> {
    if name == seq![83u8, 73u8, 83u8, 77u8, 69u8, 77u8, 66u8, 69u8, 82u8] {
        match sp_pop(name, args) {
            Err(e) => Err(e),
            Ok((k, r1)) => match sp_pop(name, r1) {
                Err(e) => Err(e),
                Ok((m, rest)) => sp_done(CommandV::SIsMember { key: k, member: m }, rest),
            },
        }
    } else if name == seq![90u8, 82u8, 65u8, 78u8, 75u8] {
        match sp_pop(name, args) {
            Err(e) => Err(e),
            Ok((k, r1)) => match sp_pop(name, r1) {
                Err(e) => Err(e),
                Ok((m, rest)) => sp_done(CommandV::ZRank { key: k, member: m }, rest),
            },
        }
    } else if name == seq![90u8, 83u8, 67u8, 79u8, 82u8, 69u8] {
        match sp_pop(name, args) {
            Err(e) => Err(e),
            Ok((k, r1)) => match sp_pop(name, r1) {
                Err(e) => Err(e),
                Ok((m, rest)) => sp_done(CommandV::ZScore { key: k, member: m }, rest),
            },
        }
    } else if name == seq![76u8, 82u8, 65u8, 78u8, 71u8, 69u8] {
        match sp_pop(name, args) {
            Err(e) => Err(e),
            Ok((k, r1)) => match sp_pop_i64(name, r1) {
                Err(e) => Err(e),
                Ok((a, r2)) => match sp_pop_i64(name, r2) {
                    Err(e) => Err(e),
                    Ok((b, rest)) => sp_done(CommandV::LRange { key: k, start: a, stop: b }, rest),
                },
            },
        }
    } else if name == seq![90u8, 82u8, 65u8, 78u8, 71u8, 69u8] {
        match sp_pop(name, args) {
            Err(e) => Err(e),
            Ok((k, r1)) => match sp_pop_i64(name, r1) {
                Err(e) => Err(e),
                Ok((a, r2)) => match sp_pop_i64(name, r2) {
                    Err(e) => Err(e),
                    Ok((b, rest)) => sp_done(CommandV::ZRange { key: k, start: a, stop: b }, rest),
                },
            },
        }
    } else if name == seq![83u8, 65u8, 68u8, 68u8] {
        match sp_pop(name, args) {
            Err(e) => Err(e),
            Ok((k, r1)) => match sp_pop(name, r1) {
                Err(e) => Err(e),
                Ok((m0, r2)) => ({
                    let t = spec_take_strs(r2);
                    sp_done(CommandV::SAdd { key: k, members: seq![m0] + t.0 }, t.1)
                }),
            },
        }
    } else if name == seq![83u8, 82u8, 69u8, 77u8] {
        match sp_pop(name, args) {
            Err(e) => Err(e),
            Ok((k, r1)) => match sp_pop(name, r1) {
                Err(e) => Err(e),
                Ok((m0, r2)) => ({
                    let t = spec_take_strs(r2);
                    sp_done(CommandV::SRem { key: k, members: seq![m0] + t.0 }, t.1)
                }),
            },
        }
    } else if name == seq![90u8, 82u8, 69u8, 77u8] {
        match sp_pop(name, args) {
            Err(e) => Err(e),
            Ok((k, r1)) => match sp_pop(name, r1) {
                Err(e) => Err(e),
                Ok((m0, r2)) => ({
                    let t = spec_take_strs(r2);
                    sp_done(CommandV::ZRem { key: k, members: seq![m0] + t.0 }, t.1)
                }),
            },
        }
    } else if name == seq![68u8, 69u8, 76u8] {
        match sp_pop(name, args) {
            Err(e) => Err(e),
            Ok((k0, r1)) => ({
                let t = spec_take_strs(r1);
                sp_done(CommandV::Del { keys: seq![k0] + t.0 }, t.1)
            }),
        }
    } else if name == seq![83u8, 85u8, 66u8, 83u8, 67u8, 82u8, 73u8, 66u8, 69u8] {
        match sp_pop(name, args) {
            Err(e) => Err(e),
            Ok((c0, r1)) => ({
                let t = spec_take_strs(r1);
                sp_done(CommandV::Subscribe { channels: seq![c0] + t.0 }, t.1)
            }),
        }
    } else if name == seq![80u8, 85u8, 66u8, 76u8, 73u8, 83u8, 72u8] {
        match sp_pop(name, args) {
            Err(e) => Err(e),
            Ok((c, r1)) => match sp_pop(name, r1) {
                Err(e) => Err(e),
                Ok((m, rest)) => sp_done(CommandV::Publish { channel: c, message: m }, rest),
            },
        }
    } else if name == seq![82u8, 80u8, 85u8, 83u8, 72u8] {
        match sp_pop(name, args) {
            Err(e) => Err(e),
            Ok((k, r1)) => match sp_pop(name, r1) {
                Err(e) => Err(e),
                Ok((e0, r2)) => ({
                    let t = spec_take_strs(r2);
                    sp_done(CommandV::Push { key: k, elems: seq![e0] + t.0, dir: ListDirection::Right }, t.1)
                }),
            },
        }
    } else if name == seq![76u8, 80u8, 85u8, 83u8, 72u8] {
        match sp_pop(name, args) {
            Err(e) => Err(e),
            Ok((k, r1)) => match sp_pop(name, r1) {
                Err(e) => Err(e),
                Ok((e0, r2)) => ({
                    let t = spec_take_strs(r2);
                    sp_done(CommandV::Push { key: k, elems: seq![e0] + t.0, dir: ListDirection::Left }, t.1)
                }),
            },
        }
    } else if name == seq![82u8, 80u8, 79u8, 80u8] {
        match sp_pop(name, args) {
            Err(e) => Err(e),
            Ok((k, r1)) => ({
                let p = sp_pop_opt(r1);
                match p.0 {
                    None => sp_done(CommandV::Pop { key: k, dir: ListDirection::Right, count: 1 }, p.1),
                    Some(b) => match spec_parse_i64(b) {
                        Some(c) => sp_done(CommandV::Pop { key: k, dir: ListDirection::Right, count: c }, p.1),
                        None => Err(spec_invalid_arg(name)),
                    },
                }
            }),
        }
    } else if name == seq![76u8, 80u8, 79u8, 80u8] {
        match sp_pop(name, args) {
            Err(e) => Err(e),
            Ok((k, r1)) => ({
                let p = sp_pop_opt(r1);
                match p.0 {
                    None => sp_done(CommandV::Pop { key: k, dir: ListDirection::Left, count: 1 }, p.1),
                    Some(b) => match spec_parse_i64(b) {
                        Some(c) => sp_done(CommandV::Pop { key: k, dir: ListDirection::Left, count: c }, p.1),
                        None => Err(spec_invalid_arg(name)),
                    },
                }
            }),
        }
    } else {
        Err(spec_unknown_command(name))
    }
}

/// The compound commands: options, pairs, and streams.
pub open spec fn spec_parse_compound(name: Seq<u8>, args: Seq<RespValue>) -> Result<
    CommandV,
    Seq<u8>,
> {
    if name == seq![66u8, 82u8, 80u8, 79u8, 80u8] {
        match sp_pop(name, args) {
            Err(e) => Err(e),
            Ok((k, r1)) => match sp_pop(name, r1) {
                Err(e) => Err(e),
                Ok((t, rest)) => match spec_timeout_millis(t) {
                    Some(ms) => sp_done(
                        CommandV::BPop { key: k, dir: ListDirection::Right, timeout_millis: ms as u64 },
                        rest,
                    ),
                    None => Err(spec_invalid_arg(name)),
                },
            },
        }
    } else if name == seq![66u8, 76u8, 80u8, 79u8, 80u8] {
        match sp_pop(name, args) {
            Err(e) => Err(e),
            Ok((k, r1)) => match sp_pop(name, r1) {
                Err(e) => Err(e),
                Ok((t, rest)) => match spec_timeout_millis(t) {
                    Some(ms) => sp_done(
                        CommandV::BPop { key: k, dir: ListDirection::Left, timeout_millis: ms as u64 },
                        rest,
                    ),
                    None => Err(spec_invalid_arg(name)),
                },
            },
        }
    } else if name == seq![83u8, 69u8, 84u8] {
        match sp_pop(name, args) {
            Err(e) => Err(e),
            Ok((k, r1)) => match sp_pop(name, r1) {
                Err(e) => Err(e),
                Ok((v, r2)) => ({
                    let ex = spec_named(r2, seq![69u8, 88u8]);
                    let px = spec_named(ex.1, seq![80u8, 88u8]);
                    match sp_named_u64(name, ex.0) {
                        Err(e) => Err(e),
                        Ok(exv) => match sp_named_u64(name, px.0) {
                            Err(e) => Err(e),
                            Ok(pxv) => match (exv, pxv) {
                                (None, None) => sp_done(
                                    CommandV::SetKv { key: k, val: v, ttl: None },
                                    px.1,
                                ),
                                (Some(x), None) => sp_done(
                                    CommandV::SetKv {
                                        key: k,
                                        val: v,
                                        ttl: Some(sat_mul_1000(x)),
                                    },
                                    px.1,
                                ),
                                (None, Some(p)) => sp_done(
                                    CommandV::SetKv { key: k, val: v, ttl: Some(p as u64) },
                                    px.1,
                                ),
                                (Some(_), Some(_)) => Err(spec_both_ex_px()),
                            },
                        },
                    }
                }),
            },
        }
    } else if name == seq![90u8, 65u8, 68u8, 68u8] {
        match sp_pop(name, args) {
            Err(e) => Err(e),
            Ok((k, r1)) => match sp_pop(name, r1) {
                Err(e) => Err(e),
                Ok((s0, r2)) => match sp_pop(name, r2) {
                    Err(e) => Err(e),
                    Ok((m0, r3)) => ({
                        let t = sp_pairs(r3);
                        sp_done(CommandV::ZAdd { key: k, members: seq![(s0, m0)] + t.0 }, t.1)
                    }),
                },
            },
        }
    } else if name == seq![88u8, 65u8, 68u8, 68u8] {
        match sp_pop(name, args) {
            Err(e) => Err(e),
            Ok((k, r1)) => match sp_pop(name, r1) {
                Err(e) => Err(e),
                Ok((id, r2)) => match sp_pop(name, r2) {
                    Err(e) => Err(e),
                    Ok((f0, r3)) => match sp_pop(name, r3) {
                        Err(e) => Err(e),
                        Ok((v0, r4)) => ({
                            let t = sp_pairs(r4);
                            sp_done(
                                CommandV::XAdd { key: k, id: id, data: seq![(f0, v0)] + t.0 },
                                t.1,
                            )
                        }),
                    },
                },
            },
        }
    } else if name == seq![88u8, 82u8, 65u8, 78u8, 71u8, 69u8] {
        match sp_pop(name, args) {
            Err(e) => Err(e),
            Ok((k, r1)) => match sp_pop(name, r1) {
                Err(e) => Err(e),
                Ok((a, r2)) => match sp_pop(name, r2) {
                    Err(e) => Err(e),
                    Ok((b, rest)) => sp_done(
                        CommandV::XRange { key: k, start: a, end: b },
                        rest,
                    ),
                },
            },
        }
    } else if name == seq![88u8, 82u8, 69u8, 65u8, 68u8] {
        ({
            let bl = spec_named(args, seq![98u8, 108u8, 111u8, 99u8, 107u8]);
            match sp_named_u64(name, bl.0) {
                Err(e) => Err(e),
                Ok(blv) => match sp_pop(name, bl.1) {
                    Err(e) => Err(e),
                    Ok((kw, r1)) => if upper(kw) != seq![83u8, 84u8, 82u8, 69u8, 65u8, 77u8, 83u8] {
                        Err(spec_streams_required())
                    } else {
                        let t = spec_take_strs(r1);
                        if t.1.len() != 0 {
                            Err(spec_unrecognized_args())
                        } else if t.0.len() < 2 {
                            Err(spec_need_stream_key())
                        } else if t.0.len() % 2 != 0 {
                            Err(spec_unbalanced_streams())
                        } else {
                            let h = t.0.len() as int / 2;
                            Ok(
                                CommandV::XRead {
                                    streams: Seq::new(
                                        h as nat,
                                        |i: int|
                                            if 0 <= i < h {
                                                (t.0[i], t.0[h + i])
                                            } else {
                                                (Seq::<u8>::empty(), Seq::<u8>::empty())
                                            },
                                    ),
                                    block: match blv {
                                        None => None,
                                        Some(b) => Some(b as u64),
                                    },
                                },
                            )
                        }
                    },
                },
            }
        })
    } else {
        Err(spec_unknown_command(name))
    }
}


/// Finish a parse: leftover arguments are an error.
pub open spec fn sp_done(c: CommandV, rest: Seq<RespValue>) -> Result<CommandV, Seq<u8>> {
    if rest.len() == 0 {
        Ok(c)
    } else {
        Err(spec_unrecognized_args())
    }
}

/// A named u64 option as SET and XREAD read them: an absent value (or one
/// that is not a string) counts as absent; an unparsable one is an error.
pub open spec fn sp_named_u64(name: Seq<u8>, v: Option<Option<Seq<u8>>>) -> Result<
    Option<int>,
    Seq<u8>,
> {
    match v {
        None => Ok(None),
        Some(None) => Ok(None),
        Some(Some(b)) => match spec_parse_u64(b) {
            Some(x) => Ok(Some(x)),
            None => Err(spec_invalid_arg(name)),
        },
    }
}

/// EX seconds to milliseconds, saturating.
pub open spec fn sat_mul_1000(x: int) -> u64 {
    if x * 1000 > u64::MAX {
        u64::MAX
    } else {
        (x * 1000) as u64
    }
}


fn invalid_arg(cmd: &Vec<u8>) -> (r: Vec<u8>)
    ensures
        r@ == spec_invalid_arg(cmd@),
{
    let mut v = clone_bytes(cmd);
    v.push(58);
    v.push(32);
    v.push(105);
    v.push(110);
    v.push(118);
    v.push(97);
    v.push(108);
    v.push(105);
    v.push(100);
    v.push(32);
    v.push(97);
    v.push(114);
    v.push(103);
    v.push(117);
    v.push(109);
    v.push(101);
    v.push(110);
    v.push(116);
    assert(v@ =~= spec_invalid_arg(cmd@));
    v
}

fn unrecognized_args() -> (r: Vec<u8>)
    ensures
        r@ == spec_unrecognized_args(),
{
    let mut v: Vec<u8> = Vec::new();
    v.push(85);
    v.push(110);
    v.push(114);
    v.push(101);
    v.push(99);
    v.push(111);
    v.push(103);
    v.push(110);
    v.push(105);
    v.push(122);
    v.push(101);
    v.push(100);
    v.push(32);
    v.push(97);
    v.push(114);
    v.push(103);
    v.push(117);
    v.push(109);
    v.push(101);
    v.push(110);
    v.push(116);
    v.push(115);
    assert(v@ =~= spec_unrecognized_args());
    v
}

fn unknown_command(cmd: &Vec<u8>) -> (r: Vec<u8>)
    ensures
        r@ == spec_unknown_command(cmd@),
{
    let mut v: Vec<u8> = Vec::new();
    v.push(85);
    v.push(110);
    v.push(114);
    v.push(101);
    v.push(99);
    v.push(111);
    v.push(103);
    v.push(110);
    v.push(105);
    v.push(122);
    v.push(101);
    v.push(100);
    v.push(32);
    v.push(99);
    v.push(111);
    v.push(109);
    v.push(109);
    v.push(97);
    v.push(110);
    v.push(100);
    v.push(32);
    v.push(39);
    let mut v2 = v;
    let mut i: usize = 0;
    while i < cmd.len()
        invariant
            0 <= i <= cmd@.len(),
            v2@ =~= seq![85u8, 110u8, 114u8, 101u8, 99u8, 111u8, 103u8, 110u8, 105u8, 122u8, 101u8, 100u8, 32u8, 99u8, 111u8, 109u8, 109u8, 97u8, 110u8, 100u8, 32u8, 39u8] + cmd@.take(i as int),
        decreases cmd@.len() - i,
    {
        v2.push(cmd[i]);
        proof {
            assert(v2@ =~= seq![85u8, 110u8, 114u8, 101u8, 99u8, 111u8, 103u8, 110u8, 105u8, 122u8, 101u8, 100u8, 32u8, 99u8, 111u8, 109u8, 109u8, 97u8, 110u8, 100u8, 32u8, 39u8] + cmd@.take(i as int + 1));
        }
        i = i + 1;
    }
    proof {
        assert(cmd@.take(cmd@.len() as int) =~= cmd@);
    }
    v2.push(39);
    assert(v2@ =~= spec_unknown_command(cmd@));
    v2
}

fn both_ex_px() -> (r: Vec<u8>)
    ensures
        r@ == spec_both_ex_px(),
{
    let mut v: Vec<u8> = Vec::new();
    v.push(99);
    v.push(97);
    v.push(110);
    v.push(39);
    v.push(116);
    v.push(32);
    v.push(112);
    v.push(114);
    v.push(111);
    v.push(118);
    v.push(105);
    v.push(100);
    v.push(101);
    v.push(32);
    v.push(98);
    v.push(111);
    v.push(116);
    v.push(104);
    v.push(32);
    v.push(69);
    v.push(88);
    v.push(32);
    v.push(97);
    v.push(110);
    v.push(100);
    v.push(32);
    v.push(80);
    v.push(88);
    assert(v@ =~= spec_both_ex_px());
    v
}

fn streams_required() -> (r: Vec<u8>)
    ensures
        r@ == spec_streams_required(),
{
    let mut v: Vec<u8> = Vec::new();
    v.push(83);
    v.push(84);
    v.push(82);
    v.push(69);
    v.push(65);
    v.push(77);
    v.push(83);
    v.push(32);
    v.push(107);
    v.push(101);
    v.push(121);
    v.push(119);
    v.push(111);
    v.push(114);
    v.push(100);
    v.push(32);
    v.push(105);
    v.push(115);
    v.push(32);
    v.push(114);
    v.push(101);
    v.push(113);
    v.push(117);
    v.push(105);
    v.push(114);
    v.push(101);
    v.push(100);
    assert(v@ =~= spec_streams_required());
    v
}

fn need_stream_key() -> (r: Vec<u8>)
    ensures
        r@ == spec_need_stream_key(),
{
    let mut v: Vec<u8> = Vec::new();
    v.push(77);
    v.push(117);
    v.push(115);
    v.push(116);
    v.push(32);
    v.push(112);
    v.push(114);
    v.push(111);
    v.push(118);
    v.push(105);
    v.push(100);
    v.push(101);
    v.push(32);
    v.push(97);
    v.push(32);
    v.push(115);
    v.push(116);
    v.push(114);
    v.push(101);
    v.push(97);
    v.push(109);
    v.push(32);
    v.push(107);
    v.push(101);
    v.push(121);
    v.push(32);
    v.push(97);
    v.push(110);
    v.push(100);
    v.push(32);
    v.push(73);
    v.push(68);
    assert(v@ =~= spec_need_stream_key());
    v
}

fn unbalanced_streams() -> (r: Vec<u8>)
    ensures
        r@ == spec_unbalanced_streams(),
{
    let mut v: Vec<u8> = Vec::new();
    v.push(85);
    v.push(110);
    v.push(98);
    v.push(97);
    v.push(108);
    v.push(97);
    v.push(110);
    v.push(99);
    v.push(101);
    v.push(100);
    v.push(32);
    v.push(108);
    v.push(105);
    v.push(115);
    v.push(116);
    v.push(32);
    v.push(111);
    v.push(102);
    v.push(32);
    v.push(115);
    v.push(116);
    v.push(114);
    v.push(101);
    v.push(97);
    v.push(109);
    v.push(32);
    v.push(107);
    v.push(101);
    v.push(121);
    v.push(115);
    v.push(32);
    v.push(97);
    v.push(110);
    v.push(100);
    v.push(32);
    v.push(73);
    v.push(68);
    v.push(115);
    assert(v@ =~= spec_unbalanced_streams());
    v
}

impl Arguments {
    /// Required u64 argument.
    fn pop_u64(&mut self) -> (r: Result<u64, Vec<u8>>)
        ensures
            match r {
                Ok(v) => sp_pop_u64(old(self).command@, old(self).args@) matches Ok(p) && p.0
                    == v as int && final(self).args@ == p.1,
                Err(e) => sp_pop_u64(old(self).command@, old(self).args@) matches Err(e2) && e2
                    == e@ && final(self).args@.len() <= old(self).args@.len(),
            },
            final(self).command@ == old(self).command@,
    {
        match self.pop() {
            Err(e) => Err(e),
            Ok(b) => match parse_u64(b.as_slice()) {
                Some(v) => Ok(v),
                None => Err(invalid_arg(&self.command)),
            },
        }
    }

    /// Required i64 argument.
    fn pop_i64(&mut self) -> (r: Result<i64, Vec<u8>>)
        ensures
            match r {
                Ok(v) => sp_pop_i64(old(self).command@, old(self).args@) matches Ok(p) && p.0
                    == v as int && final(self).args@ == p.1,
                Err(e) => sp_pop_i64(old(self).command@, old(self).args@) matches Err(e2) && e2
                    == e@ && final(self).args@.len() <= old(self).args@.len(),
            },
            final(self).command@ == old(self).command@,
    {
        match self.pop() {
            Err(e) => Err(e),
            Ok(b) => match parse_i64(b.as_slice()) {
                Some(v) => Ok(v),
                None => Err(invalid_arg(&self.command)),
            },
        }
    }

    /// Pairs of string arguments, greedily from the front.
    #[verifier::loop_isolation(false)]
    fn take_pairs(&mut self) -> (r: Vec<(Vec<u8>, Vec<u8>)>)
        ensures
            crate::stream::streams_model(r@) == sp_pairs(old(self).args@).0,
            final(self).args@ == sp_pairs(old(self).args@).1,
            final(self).command@ == old(self).command@,
    {
        broadcast use crate::stream::lemma_streams_model_index;

        let mut out: Vec<(Vec<u8>, Vec<u8>)> = Vec::new();
        proof {
            assert(crate::stream::streams_model(out@) =~= Seq::<(Seq<u8>, Seq<u8>)>::empty());
        }
        loop
            invariant
                self.command@ == old(self).command@,
                sp_pairs(old(self).args@).0 =~= crate::stream::streams_model(out@) + sp_pairs(
                    self.args@,
                ).0,
                sp_pairs(old(self).args@).1 == sp_pairs(self.args@).1,
            decreases self.args@.len(),
        {
            let ghost pre = self.args@;
            let a = match self.pop_optional() {
                None => {
                    break ;
                },
                Some(a) => a,
            };
            let b = match self.pop_optional() {
                None => {
                    break ;
                },
                Some(b) => b,
            };
            let ghost preo = out@;
            out.push((a, b));
            proof {
                assert forall|x: int| 0 <= x < out@.len() implies #[trigger] crate::stream::streams_model(
                    out@,
                )[x] == (crate::stream::streams_model(preo).push((a@, b@)))[x] by {
                    if x < preo.len() {
                        assert(out@[x] == preo[x]);
                    }
                }
                assert(crate::stream::streams_model(out@) =~= crate::stream::streams_model(
                    preo,
                ).push((a@, b@)));
                assert(crate::stream::streams_model(preo) + (seq![(a@, b@)] + sp_pairs(
                    self.args@,
                ).0) =~= crate::stream::streams_model(out@) + sp_pairs(self.args@).0);
            }
        }
        proof {
            assert(crate::stream::streams_model(out@) + Seq::<(Seq<u8>, Seq<u8>)>::empty()
                =~= crate::stream::streams_model(out@));
        }
        out
    }

    /// A named u64 option.
    fn named_u64(&mut self, name: &[u8]) -> (r: Result<Option<u64>, Vec<u8>>)
        ensures
            ({
                let sn = spec_named(old(self).args@, name@);
                match r {
                    Ok(v) => sp_named_u64(old(self).command@, sn.0) matches Ok(x) && (match v {
                        Some(vv) => x == Some(vv as int),
                        None => x is None,
                    }) && final(self).args@ == (if sn.0 is Some {
                        sn.1
                    } else {
                        old(self).args@
                    }),
                    Err(e) => sp_named_u64(old(self).command@, sn.0) matches Err(e2) && e2 == e@,
                }
            }),
            final(self).command@ == old(self).command@,
    {
        match self.pop_optional_named(name) {
            None => Ok(None),
            Some(None) => Ok(None),
            Some(Some(b)) => match parse_u64(b.as_slice()) {
                Some(v) => Ok(Some(v)),
                None => Err(invalid_arg(&self.command)),
            },
        }
    }
}

/// BLPOP/BRPOP timeout text to milliseconds.
#[verifier::loop_isolation(false)]
fn parse_timeout(b: &Vec<u8>) -> (r: Option<u64>)
    ensures
        match r {
            Some(v) => spec_timeout_millis(b@) == Some(v as int),
            None => spec_timeout_millis(b@) is None,
        },
{
    proof {
        crate::resp::lemma_find_from_props(b@, 0, 46);
    }
    if b.len() > 0 && b[0] == 45 {
        let rest = vstd::slice::slice_subrange(b.as_slice(), 1, b.len());
        proof {
            assert(rest@ =~= b@.drop_first());
        }
        if is_decimal(rest) {
            return Some(0);
        } else {
            return None;
        }
    }
    if !is_decimal(b.as_slice()) {
        return None;
    }
    let bl = b.len();
    let (ip, fp): (&[u8], &[u8]) = match crate::util::find_byte(b.as_slice(), 0, 46) {
        None => {
            let whole = b.as_slice();
            proof {
                assert(whole@ =~= b@);
            }
            (whole, vstd::slice::slice_subrange(b.as_slice(), bl, bl))
        },
        Some(d) => {
            proof {
                assert(d < b@.len());
            }
            (
                vstd::slice::slice_subrange(b.as_slice(), 0, d),
                vstd::slice::slice_subrange(b.as_slice(), d + 1, bl),
            )
        },
    };
    proof {
        match crate::util::find_from(b@, 0, 46) {
            None => {
                assert(ip@ =~= b@);
                assert(fp@ =~= Seq::<u8>::empty());
            },
            Some(d) => {
                assert(ip@ =~= b@.take(d));
                assert(fp@ =~= b@.skip(d + 1));
            },
        }
    }
    // the whole part
    let mut v: u64 = 0;
    let mut overflowed = false;
    let mut i: usize = 0;
    let cap: u64 = 18446744073709551;
    while i < ip.len()
        invariant
            0 <= i <= ip@.len(),
            crate::util::all_digits(ip@),
            !overflowed ==> v == crate::util::dec_val(ip@.take(i as int)) && v < cap,
            overflowed ==> crate::util::dec_val(ip@.take(i as int)) >= cap,
        decreases ip@.len() - i,
    {
        let d = ip[i] - 48;
        proof {
            assert(ip@.take(i as int + 1).drop_last() =~= ip@.take(i as int));
            assert(ip@.take(i as int + 1).last() == ip@[i as int]);
            crate::util::lemma_dec_val_nonneg(ip@.take(i as int));
        }
        if !overflowed {
            if v >= 1844674407370956 {
                overflowed = true;
            } else {
                v = v * 10 + d as u64;
                if v >= cap {
                    overflowed = true;
                    proof {
                        assert(crate::util::dec_val(ip@.take(i as int + 1)) >= cap);
                    }
                }
            }
        } else {
            proof {
                assert(crate::util::dec_val(ip@.take(i as int + 1)) >= 10 * cap + 0 - 48 + 48
                    - 48) by {
                    assert(crate::util::dec_val(ip@.take(i as int)) >= cap);
                    assert(is_ascii_digit_local(ip@.take(i as int + 1).last()));
                }
            }
        }
        i = i + 1;
    }
    proof {
        assert(ip@.take(ip@.len() as int) =~= ip@);
    }
    if overflowed {
        return Some(u64::MAX);
    }
    // the fractional part
    let d0: u64 = if fp.len() > 0 {
        ((fp[0] - 48) as u64) * 100
    } else {
        0
    };
    let d1: u64 = if fp.len() > 1 {
        ((fp[1] - 48) as u64) * 10
    } else {
        0
    };
    let d2: u64 = if fp.len() > 2 {
        (fp[2] - 48) as u64
    } else {
        0
    };
    let up: u64 = if fp.len() > 3 && fp[3] >= 53 {
        1
    } else {
        0
    };
    Some(v * 1000 + d0 + d1 + d2 + up)
}

spec fn is_ascii_digit_local(b: u8) -> bool {
    48 <= b <= 57
}

/// Whether the bytes are digits, optionally a dot and more digits.
#[verifier::loop_isolation(false)]
fn is_decimal(s: &[u8]) -> (r: bool)
    ensures
        r == is_plain_decimal(s@),
{
    proof {
        crate::resp::lemma_find_from_props(s@, 0, 46);
    }
    let sl = s.len();
    match crate::util::find_byte(s, 0, 46) {
        None => {
            if s.len() == 0 {
                return false;
            }
            let r = all_digits_exec(s, 0, sl);
            proof {
                if r {
                    assert(crate::util::all_digits(s@));
                } else {
                    assert(!crate::util::all_digits(s@));
                }
            }
            r
        },
        Some(d) => {
            if d == 0 {
                return false;
            }
            let a = all_digits_exec(s, 0, d);
            let b = all_digits_exec(s, d + 1, sl);
            proof {
                let tk = s@.take(d as int);
                let sk = s@.skip(d as int + 1);
                if a {
                    assert forall|j: int| 0 <= j < tk.len() implies crate::util::is_ascii_digit(
                        #[trigger] tk[j],
                    ) by {
                        assert(tk[j] == s@[j]);
                    }
                } else {
                    let j = choose|j: int|
                        0 <= j < d && !crate::util::is_ascii_digit(#[trigger] s@[j]);
                    assert(tk[j] == s@[j]);
                    assert(!crate::util::all_digits(tk));
                }
                if b {
                    assert forall|j: int| 0 <= j < sk.len() implies crate::util::is_ascii_digit(
                        #[trigger] sk[j],
                    ) by {
                        assert(sk[j] == s@[j + d + 1]);
                    }
                } else {
                    let j = choose|j: int|
                        d + 1 <= j < s@.len() && !crate::util::is_ascii_digit(#[trigger] s@[j]);
                    assert(sk[j - d - 1] == s@[j]);
                    assert(!crate::util::all_digits(sk));
                }
            }
            a && b
        },
    }
}

/// Whether the bytes in `[from, to)` are all ASCII digits.
#[verifier::loop_isolation(false)]
fn all_digits_exec(s: &[u8], from: usize, to: usize) -> (r: bool)
    requires
        from <= to <= s@.len(),
    ensures
        r == (forall|j: int| from <= j < to ==> crate::util::is_ascii_digit(#[trigger] s@[j])),
{
    let mut i: usize = from;
    while i < to
        invariant
            from <= i <= to,
            forall|j: int| from <= j < i ==> crate::util::is_ascii_digit(#[trigger] s@[j]),
        decreases to - i,
    {
        if s[i] < 48 || s[i] > 57 {
            return false;
        }
        i = i + 1;
    }
    true
}


/// Parse the argument list into a typed command: the exact image of
/// `spec_parse_command` on the frame's name and arguments.
pub fn parse_command(args: Arguments) -> (r: Result<Command, Vec<u8>>)
    ensures
        match r {
            Ok(c) => spec_parse_command(args.command@, args.args@) == Ok::<CommandV, Seq<u8>>(c@),
            Err(e) => spec_parse_command(args.command@, args.args@) matches Err(e2) && e2 == e@,
        },
{
    let a = match parse_group_basic(args) {
        Ok(out) => {
            return out;
        },
        Err(a) => a,
    };
    let a = match parse_group_collections(a) {
        Ok(out) => {
            return out;
        },
        Err(a) => a,
    };
    let a = match parse_group_compound(a) {
        Ok(out) => {
            return out;
        },
        Err(a) => a,
    };
    Err(unknown_command(&a.command))
}

/// Whether the name belongs to this dispatch group.
pub open spec fn name_in_basic(name: Seq<u8>) -> bool {
    name == seq![80u8, 73u8, 78u8, 71u8]
        || name == seq![68u8, 66u8, 83u8, 73u8, 90u8, 69u8]
        || name == seq![70u8, 76u8, 85u8, 83u8, 72u8, 68u8, 66u8]
        || name == seq![77u8, 85u8, 76u8, 84u8, 73u8]
        || name == seq![69u8, 88u8, 69u8, 67u8]
        || name == seq![68u8, 73u8, 83u8, 67u8, 65u8, 82u8, 68u8]
        || name == seq![75u8, 69u8, 89u8, 83u8]
        || name == seq![69u8, 67u8, 72u8, 79u8]
        || name == seq![65u8, 85u8, 84u8, 72u8]
        || name == seq![67u8, 79u8, 78u8, 70u8, 73u8, 71u8]
        || name == seq![71u8, 69u8, 84u8]
        || name == seq![84u8, 89u8, 80u8, 69u8]
        || name == seq![84u8, 84u8, 76u8]
        || name == seq![73u8, 78u8, 67u8, 82u8]
        || name == seq![76u8, 76u8, 69u8, 78u8]
        || name == seq![83u8, 67u8, 65u8, 82u8, 68u8]
        || name == seq![83u8, 77u8, 69u8, 77u8, 66u8, 69u8, 82u8, 83u8]
        || name == seq![88u8, 76u8, 69u8, 78u8]
        || name == seq![90u8, 67u8, 65u8, 82u8, 68u8]
}

#[verifier::rlimit(100)]
fn parse_group_basic(args: Arguments) -> (r: Result<Result<Command, Vec<u8>>, Arguments>)
    ensures
        match r {
            Ok(out) => name_in_basic(args.command@) && (match out {
                Ok(c) => spec_parse_basic(args.command@, args.args@) == Ok::<
                    CommandV,
                    Seq<u8>,
                >(c@),
                Err(e) => spec_parse_basic(args.command@, args.args@) matches Err(e2) && e2
                    == e@,
            }),
            Err(back) => !name_in_basic(args.command@) && back == args,
        },
{
    let mut a = args;
    if is_name(&a.command, &[80u8, 73u8, 78u8, 71u8]) {
        proof {
            assert(a.command@ == seq![80u8, 73u8, 78u8, 71u8]);
        }
        return Ok(finish(Command::Ping, a));
    } else if is_name(&a.command, &[68u8, 66u8, 83u8, 73u8, 90u8, 69u8]) {
        proof {
            assert(a.command@ == seq![68u8, 66u8, 83u8, 73u8, 90u8, 69u8]);
        }
        return Ok(finish(Command::DbSize, a));
    } else if is_name(&a.command, &[70u8, 76u8, 85u8, 83u8, 72u8, 68u8, 66u8]) {
        proof {
            assert(a.command@ == seq![70u8, 76u8, 85u8, 83u8, 72u8, 68u8, 66u8]);
        }
        return Ok(finish(Command::FlushDb, a));
    } else if is_name(&a.command, &[77u8, 85u8, 76u8, 84u8, 73u8]) {
        proof {
            assert(a.command@ == seq![77u8, 85u8, 76u8, 84u8, 73u8]);
        }
        return Ok(finish(Command::Multi, a));
    } else if is_name(&a.command, &[69u8, 88u8, 69u8, 67u8]) {
        proof {
            assert(a.command@ == seq![69u8, 88u8, 69u8, 67u8]);
        }
        return Ok(finish(Command::Exec, a));
    } else if is_name(&a.command, &[68u8, 73u8, 83u8, 67u8, 65u8, 82u8, 68u8]) {
        proof {
            assert(a.command@ == seq![68u8, 73u8, 83u8, 67u8, 65u8, 82u8, 68u8]);
        }
        return Ok(finish(Command::Discard, a));
    } else if is_name(&a.command, &[75u8, 69u8, 89u8, 83u8]) {
        proof {
            assert(a.command@ == seq![75u8, 69u8, 89u8, 83u8]);
        }
        return Ok(finish(Command::Keys, a));
    } else if is_name(&a.command, &[69u8, 67u8, 72u8, 79u8]) {
        proof {
            assert(a.command@ == seq![69u8, 67u8, 72u8, 79u8]);
        }
        let m = match a.pop() {
            Err(e) => {
                return Ok(Err(e));
            },
            Ok(m) => m,
        };
        return Ok(finish(Command::Echo { message: m }, a));
    } else if is_name(&a.command, &[65u8, 85u8, 84u8, 72u8]) {
        proof {
            assert(a.command@ == seq![65u8, 85u8, 84u8, 72u8]);
        }
        let p = match a.pop() {
            Err(e) => {
                return Ok(Err(e));
            },
            Ok(p) => p,
        };
        return Ok(finish(Command::Auth { pass: p }, a));
    } else if is_name(&a.command, &[67u8, 79u8, 78u8, 70u8, 73u8, 71u8]) {
        proof {
            assert(a.command@ == seq![67u8, 79u8, 78u8, 70u8, 73u8, 71u8]);
        }
        let sub = match a.pop() {
            Err(e) => {
                return Ok(Err(e));
            },
            Ok(sub) => sub,
        };
        if !eq_ignore_case(sub.as_slice(), &[71u8, 69u8, 84u8]) {
            proof {
                assert(upper(sub@) != seq![71u8, 69u8, 84u8]) by {
                    assert(upper(seq![71u8, 69u8, 84u8]) =~= seq![71u8, 69u8, 84u8]);
                }
            }
            return Ok(Err(invalid_arg(&a.command)));
        }
        proof {
            assert(upper(sub@) == seq![71u8, 69u8, 84u8]) by {
                assert(upper(seq![71u8, 69u8, 84u8]) =~= seq![71u8, 69u8, 84u8]);
            }
        }
        let p = match a.pop() {
            Err(e) => {
                return Ok(Err(e));
            },
            Ok(p) => p,
        };
        return Ok(finish(Command::ConfigGet { param: p }, a));
    } else if is_name(&a.command, &[71u8, 69u8, 84u8]) {
        proof {
            assert(a.command@ == seq![71u8, 69u8, 84u8]);
        }
        let k = match a.pop() {
            Err(e) => {
                return Ok(Err(e));
            },
            Ok(k) => k,
        };
        return Ok(finish(Command::Get { key: k }, a));
    } else if is_name(&a.command, &[84u8, 89u8, 80u8, 69u8]) {
        proof {
            assert(a.command@ == seq![84u8, 89u8, 80u8, 69u8]);
        }
        let k = match a.pop() {
            Err(e) => {
                return Ok(Err(e));
            },
            Ok(k) => k,
        };
        return Ok(finish(Command::Type { key: k }, a));
    } else if is_name(&a.command, &[84u8, 84u8, 76u8]) {
        proof {
            assert(a.command@ == seq![84u8, 84u8, 76u8]);
        }
        let k = match a.pop() {
            Err(e) => {
                return Ok(Err(e));
            },
            Ok(k) => k,
        };
        return Ok(finish(Command::Ttl { key: k }, a));
    } else if is_name(&a.command, &[73u8, 78u8, 67u8, 82u8]) {
        proof {
            assert(a.command@ == seq![73u8, 78u8, 67u8, 82u8]);
        }
        let k = match a.pop() {
            Err(e) => {
                return Ok(Err(e));
            },
            Ok(k) => k,
        };
        return Ok(finish(Command::Incr { key: k }, a));
    } else if is_name(&a.command, &[76u8, 76u8, 69u8, 78u8]) {
        proof {
            assert(a.command@ == seq![76u8, 76u8, 69u8, 78u8]);
        }
        let k = match a.pop() {
            Err(e) => {
                return Ok(Err(e));
            },
            Ok(k) => k,
        };
        return Ok(finish(Command::LLen { key: k }, a));
    } else if is_name(&a.command, &[83u8, 67u8, 65u8, 82u8, 68u8]) {
        proof {
            assert(a.command@ == seq![83u8, 67u8, 65u8, 82u8, 68u8]);
        }
        let k = match a.pop() {
            Err(e) => {
                return Ok(Err(e));
            },
            Ok(k) => k,
        };
        return Ok(finish(Command::SCard { key: k }, a));
    } else if is_name(&a.command, &[83u8, 77u8, 69u8, 77u8, 66u8, 69u8, 82u8, 83u8]) {
        proof {
            assert(a.command@ == seq![83u8, 77u8, 69u8, 77u8, 66u8, 69u8, 82u8, 83u8]);
        }
        let k = match a.pop() {
            Err(e) => {
                return Ok(Err(e));
            },
            Ok(k) => k,
        };
        return Ok(finish(Command::SMembers { key: k }, a));
    } else if is_name(&a.command, &[88u8, 76u8, 69u8, 78u8]) {
        proof {
            assert(a.command@ == seq![88u8, 76u8, 69u8, 78u8]);
        }
        let k = match a.pop() {
            Err(e) => {
                return Ok(Err(e));
            },
            Ok(k) => k,
        };
        return Ok(finish(Command::XLen { key: k }, a));
    } else if is_name(&a.command, &[90u8, 67u8, 65u8, 82u8, 68u8]) {
        proof {
            assert(a.command@ == seq![90u8, 67u8, 65u8, 82u8, 68u8]);
        }
        let k = match a.pop() {
            Err(e) => {
                return Ok(Err(e));
            },
            Ok(k) => k,
        };
        return Ok(finish(Command::ZCard { key: k }, a));
    } else {
        return Err(a);
    }
}

/// Whether the name belongs to this dispatch group.
pub open spec fn name_in_collections(name: Seq<u8>) -> bool {
    name == seq![83u8, 73u8, 83u8, 77u8, 69u8, 77u8, 66u8, 69u8, 82u8]
        || name == seq![90u8, 82u8, 65u8, 78u8, 75u8]
        || name == seq![90u8, 83u8, 67u8, 79u8, 82u8, 69u8]
        || name == seq![76u8, 82u8, 65u8, 78u8, 71u8, 69u8]
        || name == seq![90u8, 82u8, 65u8, 78u8, 71u8, 69u8]
        || name == seq![83u8, 65u8, 68u8, 68u8]
        || name == seq![83u8, 82u8, 69u8, 77u8]
        || name == seq![90u8, 82u8, 69u8, 77u8]
        || name == seq![68u8, 69u8, 76u8]
        || name == seq![83u8, 85u8, 66u8, 83u8, 67u8, 82u8, 73u8, 66u8, 69u8]
        || name == seq![80u8, 85u8, 66u8, 76u8, 73u8, 83u8, 72u8]
        || name == seq![82u8, 80u8, 85u8, 83u8, 72u8]
        || name == seq![76u8, 80u8, 85u8, 83u8, 72u8]
        || name == seq![82u8, 80u8, 79u8, 80u8]
        || name == seq![76u8, 80u8, 79u8, 80u8]
}

#[verifier::rlimit(100)]
fn parse_group_collections(args: Arguments) -> (r: Result<Result<Command, Vec<u8>>, Arguments>)
    ensures
        match r {
            Ok(out) => name_in_collections(args.command@) && (match out {
                Ok(c) => spec_parse_collections(args.command@, args.args@) == Ok::<
                    CommandV,
                    Seq<u8>,
                >(c@),
                Err(e) => spec_parse_collections(args.command@, args.args@) matches Err(e2) && e2
                    == e@,
            }),
            Err(back) => !name_in_collections(args.command@) && back == args,
        },
{
    let mut a = args;
    if is_name(&a.command, &[83u8, 73u8, 83u8, 77u8, 69u8, 77u8, 66u8, 69u8, 82u8]) {
        proof {
            assert(a.command@ == seq![83u8, 73u8, 83u8, 77u8, 69u8, 77u8, 66u8, 69u8, 82u8]);
        }
        let k = match a.pop() {
            Err(e) => {
                return Ok(Err(e));
            },
            Ok(k) => k,
        };
        let m = match a.pop() {
            Err(e) => {
                return Ok(Err(e));
            },
            Ok(m) => m,
        };
        return Ok(finish(Command::SIsMember { key: k, member: m }, a));
    } else if is_name(&a.command, &[90u8, 82u8, 65u8, 78u8, 75u8]) {
        proof {
            assert(a.command@ == seq![90u8, 82u8, 65u8, 78u8, 75u8]);
        }
        let k = match a.pop() {
            Err(e) => {
                return Ok(Err(e));
            },
            Ok(k) => k,
        };
        let m = match a.pop() {
            Err(e) => {
                return Ok(Err(e));
            },
            Ok(m) => m,
        };
        return Ok(finish(Command::ZRank { key: k, member: m }, a));
    } else if is_name(&a.command, &[90u8, 83u8, 67u8, 79u8, 82u8, 69u8]) {
        proof {
            assert(a.command@ == seq![90u8, 83u8, 67u8, 79u8, 82u8, 69u8]);
        }
        let k = match a.pop() {
            Err(e) => {
                return Ok(Err(e));
            },
            Ok(k) => k,
        };
        let m = match a.pop() {
            Err(e) => {
                return Ok(Err(e));
            },
            Ok(m) => m,
        };
        return Ok(finish(Command::ZScore { key: k, member: m }, a));
    } else if is_name(&a.command, &[76u8, 82u8, 65u8, 78u8, 71u8, 69u8]) {
        proof {
            assert(a.command@ == seq![76u8, 82u8, 65u8, 78u8, 71u8, 69u8]);
        }
        let k = match a.pop() {
            Err(e) => {
                return Ok(Err(e));
            },
            Ok(k) => k,
        };
        let st = match a.pop_i64() {
            Err(e) => {
                return Ok(Err(e));
            },
            Ok(x) => x,
        };
        let sp = match a.pop_i64() {
            Err(e) => {
                return Ok(Err(e));
            },
            Ok(x) => x,
        };
        return Ok(finish(Command::LRange { key: k, start: st, stop: sp }, a));
    } else if is_name(&a.command, &[90u8, 82u8, 65u8, 78u8, 71u8, 69u8]) {
        proof {
            assert(a.command@ == seq![90u8, 82u8, 65u8, 78u8, 71u8, 69u8]);
        }
        let k = match a.pop() {
            Err(e) => {
                return Ok(Err(e));
            },
            Ok(k) => k,
        };
        let st = match a.pop_i64() {
            Err(e) => {
                return Ok(Err(e));
            },
            Ok(x) => x,
        };
        let sp = match a.pop_i64() {
            Err(e) => {
                return Ok(Err(e));
            },
            Ok(x) => x,
        };
        return Ok(finish(Command::ZRange { key: k, start: st, stop: sp }, a));
    } else if is_name(&a.command, &[83u8, 65u8, 68u8, 68u8]) {
        proof {
            assert(a.command@ == seq![83u8, 65u8, 68u8, 68u8]);
        }
        let k = match a.pop() {
            Err(e) => {
                return Ok(Err(e));
            },
            Ok(k) => k,
        };
        let m0 = match a.pop() {
            Err(e) => {
                return Ok(Err(e));
            },
            Ok(m) => m,
        };
        let more = a.take_strings();
        let members = cons_str(m0, more);
        return Ok(finish(Command::SAdd { key: k, members }, a));
    } else if is_name(&a.command, &[83u8, 82u8, 69u8, 77u8]) {
        proof {
            assert(a.command@ == seq![83u8, 82u8, 69u8, 77u8]);
        }
        let k = match a.pop() {
            Err(e) => {
                return Ok(Err(e));
            },
            Ok(k) => k,
        };
        let m0 = match a.pop() {
            Err(e) => {
                return Ok(Err(e));
            },
            Ok(m) => m,
        };
        let more = a.take_strings();
        let members = cons_str(m0, more);
        return Ok(finish(Command::SRem { key: k, members }, a));
    } else if is_name(&a.command, &[90u8, 82u8, 69u8, 77u8]) {
        proof {
            assert(a.command@ == seq![90u8, 82u8, 69u8, 77u8]);
        }
        let k = match a.pop() {
            Err(e) => {
                return Ok(Err(e));
            },
            Ok(k) => k,
        };
        let m0 = match a.pop() {
            Err(e) => {
                return Ok(Err(e));
            },
            Ok(m) => m,
        };
        let more = a.take_strings();
        let members = cons_str(m0, more);
        return Ok(finish(Command::ZRem { key: k, members }, a));
    } else if is_name(&a.command, &[68u8, 69u8, 76u8]) {
        proof {
            assert(a.command@ == seq![68u8, 69u8, 76u8]);
        }
        let k0 = match a.pop() {
            Err(e) => {
                return Ok(Err(e));
            },
            Ok(k) => k,
        };
        let more = a.take_strings();
        let keys = cons_str(k0, more);
        return Ok(finish(Command::Del { keys }, a));
    } else if is_name(&a.command, &[83u8, 85u8, 66u8, 83u8, 67u8, 82u8, 73u8, 66u8, 69u8]) {
        proof {
            assert(a.command@ == seq![83u8, 85u8, 66u8, 83u8, 67u8, 82u8, 73u8, 66u8, 69u8]);
        }
        let c0 = match a.pop() {
            Err(e) => {
                return Ok(Err(e));
            },
            Ok(c) => c,
        };
        let more = a.take_strings();
        let channels = cons_str(c0, more);
        return Ok(finish(Command::Subscribe { channels }, a));
    } else if is_name(&a.command, &[80u8, 85u8, 66u8, 76u8, 73u8, 83u8, 72u8]) {
        proof {
            assert(a.command@ == seq![80u8, 85u8, 66u8, 76u8, 73u8, 83u8, 72u8]);
        }
        let c = match a.pop() {
            Err(e) => {
                return Ok(Err(e));
            },
            Ok(c) => c,
        };
        let m = match a.pop() {
            Err(e) => {
                return Ok(Err(e));
            },
            Ok(m) => m,
        };
        return Ok(finish(Command::Publish { channel: c, message: m }, a));
    } else if is_name(&a.command, &[82u8, 80u8, 85u8, 83u8, 72u8]) {
        proof {
            assert(a.command@ == seq![82u8, 80u8, 85u8, 83u8, 72u8]);
        }
        let k = match a.pop() {
            Err(e) => {
                return Ok(Err(e));
            },
            Ok(k) => k,
        };
        let e0 = match a.pop() {
            Err(e) => {
                return Ok(Err(e));
            },
            Ok(x) => x,
        };
        let more = a.take_strings();
        let elems = cons_str(e0, more);
        return Ok(finish(Command::Push { key: k, elems, dir: ListDirection::Right }, a));
    } else if is_name(&a.command, &[76u8, 80u8, 85u8, 83u8, 72u8]) {
        proof {
            assert(a.command@ == seq![76u8, 80u8, 85u8, 83u8, 72u8]);
        }
        let k = match a.pop() {
            Err(e) => {
                return Ok(Err(e));
            },
            Ok(k) => k,
        };
        let e0 = match a.pop() {
            Err(e) => {
                return Ok(Err(e));
            },
            Ok(x) => x,
        };
        let more = a.take_strings();
        let elems = cons_str(e0, more);
        return Ok(finish(Command::Push { key: k, elems, dir: ListDirection::Left }, a));
    } else if is_name(&a.command, &[82u8, 80u8, 79u8, 80u8]) {
        proof {
            assert(a.command@ == seq![82u8, 80u8, 79u8, 80u8]);
        }
        let k = match a.pop() {
            Err(e) => {
                return Ok(Err(e));
            },
            Ok(k) => k,
        };
        let count: i64 = match a.pop_optional() {
            None => 1,
            Some(b) => match parse_i64(b.as_slice()) {
                Some(c) => c,
                None => {
                    return Ok(Err(invalid_arg(&a.command)));
                },
            },
        };
        return Ok(finish(Command::Pop { key: k, dir: ListDirection::Right, count }, a));
    } else if is_name(&a.command, &[76u8, 80u8, 79u8, 80u8]) {
        proof {
            assert(a.command@ == seq![76u8, 80u8, 79u8, 80u8]);
        }
        let k = match a.pop() {
            Err(e) => {
                return Ok(Err(e));
            },
            Ok(k) => k,
        };
        let count: i64 = match a.pop_optional() {
            None => 1,
            Some(b) => match parse_i64(b.as_slice()) {
                Some(c) => c,
                None => {
                    return Ok(Err(invalid_arg(&a.command)));
                },
            },
        };
        return Ok(finish(Command::Pop { key: k, dir: ListDirection::Left, count }, a));
    } else {
        return Err(a);
    }
}

/// Whether the name belongs to this dispatch group.
pub open spec fn name_in_compound(name: Seq<u8>) -> bool {
    name == seq![66u8, 82u8, 80u8, 79u8, 80u8]
        || name == seq![66u8, 76u8, 80u8, 79u8, 80u8]
        || name == seq![83u8, 69u8, 84u8]
        || name == seq![90u8, 65u8, 68u8, 68u8]
        || name == seq![88u8, 65u8, 68u8, 68u8]
        || name == seq![88u8, 82u8, 65u8, 78u8, 71u8, 69u8]
        || name == seq![88u8, 82u8, 69u8, 65u8, 68u8]
}

#[verifier::rlimit(100)]
fn parse_group_compound(args: Arguments) -> (r: Result<Result<Command, Vec<u8>>, Arguments>)
    ensures
        match r {
            Ok(out) => name_in_compound(args.command@) && (match out {
                Ok(c) => spec_parse_compound(args.command@, args.args@) == Ok::<
                    CommandV,
                    Seq<u8>,
                >(c@),
                Err(e) => spec_parse_compound(args.command@, args.args@) matches Err(e2) && e2
                    == e@,
            }),
            Err(back) => !name_in_compound(args.command@) && back == args,
        },
{
    let mut a = args;
    if is_name(&a.command, &[66u8, 82u8, 80u8, 79u8, 80u8]) {
        proof {
            assert(a.command@ == seq![66u8, 82u8, 80u8, 79u8, 80u8]);
        }
        let k = match a.pop() {
            Err(e) => {
                return Ok(Err(e));
            },
            Ok(k) => k,
        };
        let t = match a.pop() {
            Err(e) => {
                return Ok(Err(e));
            },
            Ok(t) => t,
        };
        let ms = match parse_timeout(&t) {
            Some(ms) => ms,
            None => {
                return Ok(Err(invalid_arg(&a.command)));
            },
        };
        return Ok(finish(Command::BPop { key: k, dir: ListDirection::Right, timeout_millis: ms }, a));
    } else if is_name(&a.command, &[66u8, 76u8, 80u8, 79u8, 80u8]) {
        proof {
            assert(a.command@ == seq![66u8, 76u8, 80u8, 79u8, 80u8]);
        }
        let k = match a.pop() {
            Err(e) => {
                return Ok(Err(e));
            },
            Ok(k) => k,
        };
        let t = match a.pop() {
            Err(e) => {
                return Ok(Err(e));
            },
            Ok(t) => t,
        };
        let ms = match parse_timeout(&t) {
            Some(ms) => ms,
            None => {
                return Ok(Err(invalid_arg(&a.command)));
            },
        };
        return Ok(finish(Command::BPop { key: k, dir: ListDirection::Left, timeout_millis: ms }, a));
    } else if is_name(&a.command, &[83u8, 69u8, 84u8]) {
        proof {
            assert(a.command@ == seq![83u8, 69u8, 84u8]);
        }
        let k = match a.pop() {
            Err(e) => {
                return Ok(Err(e));
            },
            Ok(k) => k,
        };
        let v = match a.pop() {
            Err(e) => {
                return Ok(Err(e));
            },
            Ok(v) => v,
        };
        let ghost r2 = a.args@;
        let exr = a.pop_optional_named(&[69u8, 88u8]);
        let ex: Option<u64> = match exr {
            None => None,
            Some(None) => None,
            Some(Some(b)) => match parse_u64(b.as_slice()) {
                Some(x) => Some(x),
                None => {
                    return Ok(Err(invalid_arg(&a.command)));
                },
            },
        };
        let ghost exmid = a.args@;
        let pxr = a.pop_optional_named(&[80u8, 88u8]);
        let px: Option<u64> = match pxr {
            None => None,
            Some(None) => None,
            Some(Some(b)) => match parse_u64(b.as_slice()) {
                Some(x) => Some(x),
                None => {
                    return Ok(Err(invalid_arg(&a.command)));
                },
            },
        };
        proof {
            assert(a.args@ == spec_named(exmid, seq![80u8, 88u8]).1 || (spec_named(
                exmid,
                seq![80u8, 88u8],
            ).0 is None && a.args@ == exmid));
        }
        let ttl: Option<u64> = match (ex, px) {
            (None, None) => None,
            (Some(x), None) => {
                let t = if x > u64::MAX / 1000 {
                    u64::MAX
                } else {
                    x * 1000
                };
                proof {
                    assert(t == sat_mul_1000(x as int)) by {
                        assert(u64::MAX / 1000 == 18446744073709551);
                    }
                }
                Some(t)
            },
            (None, Some(p)) => Some(p),
            (Some(_), Some(_)) => {
                return Ok(Err(both_ex_px()));
            },
        };
        return Ok(finish(Command::SetKv { key: k, val: v, ttl }, a));
    } else if is_name(&a.command, &[90u8, 65u8, 68u8, 68u8]) {
        proof {
            assert(a.command@ == seq![90u8, 65u8, 68u8, 68u8]);
        }
        let k = match a.pop() {
            Err(e) => {
                return Ok(Err(e));
            },
            Ok(k) => k,
        };
        let s0 = match a.pop() {
            Err(e) => {
                return Ok(Err(e));
            },
            Ok(x) => x,
        };
        let m0 = match a.pop() {
            Err(e) => {
                return Ok(Err(e));
            },
            Ok(x) => x,
        };
        let more = a.take_pairs();
        let members = cons_pair(s0, m0, more);
        return Ok(finish(Command::ZAdd { key: k, members }, a));
    } else if is_name(&a.command, &[88u8, 65u8, 68u8, 68u8]) {
        proof {
            assert(a.command@ == seq![88u8, 65u8, 68u8, 68u8]);
        }
        let k = match a.pop() {
            Err(e) => {
                return Ok(Err(e));
            },
            Ok(k) => k,
        };
        let id = match a.pop() {
            Err(e) => {
                return Ok(Err(e));
            },
            Ok(x) => x,
        };
        let f0 = match a.pop() {
            Err(e) => {
                return Ok(Err(e));
            },
            Ok(x) => x,
        };
        let v0 = match a.pop() {
            Err(e) => {
                return Ok(Err(e));
            },
            Ok(x) => x,
        };
        let more = a.take_pairs();
        let data = cons_pair(f0, v0, more);
        return Ok(finish(Command::XAdd { key: k, id, data }, a));
    } else if is_name(&a.command, &[88u8, 82u8, 65u8, 78u8, 71u8, 69u8]) {
        proof {
            assert(a.command@ == seq![88u8, 82u8, 65u8, 78u8, 71u8, 69u8]);
        }
        let k = match a.pop() {
            Err(e) => {
                return Ok(Err(e));
            },
            Ok(k) => k,
        };
        let st = match a.pop() {
            Err(e) => {
                return Ok(Err(e));
            },
            Ok(x) => x,
        };
        let en = match a.pop() {
            Err(e) => {
                return Ok(Err(e));
            },
            Ok(x) => x,
        };
        return Ok(finish(Command::XRange { key: k, start: st, end: en }, a));
    } else if is_name(&a.command, &[88u8, 82u8, 69u8, 65u8, 68u8]) {
        proof {
            assert(a.command@ == seq![88u8, 82u8, 69u8, 65u8, 68u8]);
        }
        let blr = a.pop_optional_named(&[98u8, 108u8, 111u8, 99u8, 107u8]);
        let block: Option<u64> = match blr {
            None => None,
            Some(None) => None,
            Some(Some(b)) => match parse_u64(b.as_slice()) {
                Some(x) => Some(x),
                None => {
                    return Ok(Err(invalid_arg(&a.command)));
                },
            },
        };
        let kw = match a.pop() {
            Err(e) => {
                return Ok(Err(e));
            },
            Ok(x) => x,
        };
        if !eq_ignore_case(kw.as_slice(), &[83u8, 84u8, 82u8, 69u8, 65u8, 77u8, 83u8]) {
            proof {
                assert(upper(kw@) != seq![83u8, 84u8, 82u8, 69u8, 65u8, 77u8, 83u8]) by {
                    assert(upper(seq![83u8, 84u8, 82u8, 69u8, 65u8, 77u8, 83u8]) =~= seq![83u8, 84u8, 82u8, 69u8, 65u8, 77u8, 83u8]);
                }
            }
            return Ok(Err(streams_required()));
        }
        proof {
            assert(upper(kw@) == seq![83u8, 84u8, 82u8, 69u8, 65u8, 77u8, 83u8]) by {
                assert(upper(seq![83u8, 84u8, 82u8, 69u8, 65u8, 77u8, 83u8]) =~= seq![83u8, 84u8, 82u8, 69u8, 65u8, 77u8, 83u8]);
            }
        }
        let items = a.take_strings();
        if a.args.len() != 0 {
            return Ok(Err(unrecognized_args()));
        }
        if items.len() < 2 {
            return Ok(Err(need_stream_key()));
        }
        if items.len() % 2 != 0 {
            return Ok(Err(unbalanced_streams()));
        }
        let streams = zip_halves(items);
        return Ok(Ok(Command::XRead { streams, block }));
    } else {
        return Err(a);
    }
}

/// Whether the command name equals the literal.
fn is_name(cmd: &Vec<u8>, lit: &[u8]) -> (r: bool)
    ensures
        r == (cmd@ == lit@),
{
    crate::util::bytes_eq(cmd.as_slice(), lit)
}

/// Reject leftover arguments, else yield the command.
fn finish(c: Command, a: Arguments) -> (r: Result<Command, Vec<u8>>)
    ensures
        match r {
            Ok(c2) => a.args@.len() == 0 && c2 == c,
            Err(e) => a.args@.len() != 0 && e@ == spec_unrecognized_args(),
        },
{
    if a.args.len() == 0 {
        Ok(c)
    } else {
        Err(unrecognized_args())
    }
}

/// A head element followed by the rest.
#[verifier::loop_isolation(false)]
fn cons_str(head: Vec<u8>, rest: Vec<Vec<u8>>) -> (r: Vec<Vec<u8>>)
    ensures
        seq_views(r@) == seq![head@] + seq_views(rest@),
{
    broadcast use crate::store::lemma_seq_views_index;

    let ghost hv = head@;
    let mut out: Vec<Vec<u8>> = Vec::new();
    out.push(head);
    let mut rest = rest;
    let ghost rv = seq_views(rest@);
    let ghost n = rv.len();
    proof {
        assert(seq_views(out@) =~= seq![hv] + rv.take(0));
    }
    while rest.len() > 0
        invariant
            rest@.len() <= n,
            out@.len() == 1 + n - rest@.len(),
            seq_views(rest@) =~= rv.skip(n - rest@.len()),
            seq_views(out@) =~= seq![hv] + rv.take(n - rest@.len()),
        decreases rest@.len(),
    {
        let ghost done = n - rest@.len();
        let ghost prer = rest@;
        let x = rest.remove(0);
        proof {
            assert(seq_views(prer)[0] == x@);
            assert(rv.skip(done)[0] == rv[done]);
            assert(seq_views(rest@) =~= seq_views(prer).drop_first());
            assert(seq_views(prer).drop_first() =~= rv.skip(done + 1));
        }
        let ghost preo = out@;
        out.push(x);
        proof {
            assert forall|y: int| 0 <= y < out@.len() implies #[trigger] seq_views(out@)[y] == (
            seq![hv] + rv.take(done + 1))[y] by {
                if y < preo.len() {
                    assert(out@[y] == preo[y]);
                    assert(seq_views(out@)[y] == preo[y]@);
                    assert(seq_views(preo)[y] == preo[y]@);
                    assert(seq_views(preo)[y] == (seq![hv] + rv.take(done))[y]);
                    if y >= 1 {
                        assert((seq![hv] + rv.take(done))[y] == rv.take(done)[y - 1]);
                        assert((seq![hv] + rv.take(done + 1))[y] == rv.take(done + 1)[y - 1]);
                    }
                } else {
                    assert(out@[y] == x);
                    assert(seq_views(out@)[y] == x@);
                    assert(y == done + 1);
                    assert((seq![hv] + rv.take(done + 1))[y] == rv.take(done + 1)[done]);
                    assert(rv.take(done + 1)[done] == rv[done]);
                }
            }
            assert(seq_views(out@) =~= seq![hv] + rv.take(done + 1));
        }
    }
    proof {
        assert(rv.take(n as int) =~= rv);
    }
    out
}

/// A head pair followed by the rest.
#[verifier::loop_isolation(false)]
fn cons_pair(a: Vec<u8>, b: Vec<u8>, rest: Vec<(Vec<u8>, Vec<u8>)>) -> (r: Vec<(Vec<u8>, Vec<u8>)>)
    ensures
        crate::stream::streams_model(r@) == seq![(a@, b@)] + crate::stream::streams_model(rest@),
{
    broadcast use crate::stream::lemma_streams_model_index;

    let ghost hv = (a@, b@);
    let mut out: Vec<(Vec<u8>, Vec<u8>)> = Vec::new();
    out.push((a, b));
    let mut rest = rest;
    let ghost rv = crate::stream::streams_model(rest@);
    let ghost n = rv.len();
    proof {
        assert(crate::stream::streams_model(out@) =~= seq![hv] + rv.take(0));
    }
    while rest.len() > 0
        invariant
            rest@.len() <= n,
            out@.len() == 1 + n - rest@.len(),
            crate::stream::streams_model(rest@) =~= rv.skip(n - rest@.len()),
            crate::stream::streams_model(out@) =~= seq![hv] + rv.take(n - rest@.len()),
        decreases rest@.len(),
    {
        let ghost done = n - rest@.len();
        let ghost prer = rest@;
        let x = rest.remove(0);
        proof {
            assert(crate::stream::streams_model(prer)[0] == (x.0@, x.1@));
            assert(rv.skip(done)[0] == rv[done]);
            assert(crate::stream::streams_model(rest@) =~= crate::stream::streams_model(
                prer,
            ).drop_first());
            assert(crate::stream::streams_model(prer).drop_first() =~= rv.skip(done + 1));
        }
        let ghost preo = out@;
        out.push(x);
        proof {
            assert forall|y: int| 0 <= y < out@.len() implies #[trigger] crate::stream::streams_model(
                out@,
            )[y] == (seq![hv] + rv.take(done + 1))[y] by {
                if y < preo.len() {
                    assert(out@[y] == preo[y]);
                    assert(crate::stream::streams_model(out@)[y] == (preo[y].0@, preo[y].1@));
                    assert(crate::stream::streams_model(preo)[y] == (preo[y].0@, preo[y].1@));
                    assert(crate::stream::streams_model(preo)[y] == (seq![hv] + rv.take(done))[y]);
                    if y >= 1 {
                        assert((seq![hv] + rv.take(done))[y] == rv.take(done)[y - 1]);
                        assert((seq![hv] + rv.take(done + 1))[y] == rv.take(done + 1)[y - 1]);
                    }
                } else {
                    assert(out@[y] == x);
                    assert(crate::stream::streams_model(out@)[y] == (x.0@, x.1@));
                    assert(y == done + 1);
                    assert((seq![hv] + rv.take(done + 1))[y] == rv.take(done + 1)[done]);
                    assert(rv.take(done + 1)[done] == rv[done]);
                }
            }
            assert(crate::stream::streams_model(out@) =~= seq![hv] + rv.take(done + 1));
        }
    }
    proof {
        assert(rv.take(n as int) =~= rv);
    }
    out
}

/// Zip the first half of the run with the second half.
#[verifier::loop_isolation(false)]
fn zip_halves(items: Vec<Vec<u8>>) -> (r: Vec<(Vec<u8>, Vec<u8>)>)
    requires
        items@.len() % 2 == 0,
        items@.len() >= 2,
    ensures
        crate::stream::streams_model(r@) == Seq::new(
            (items@.len() / 2) as nat,
            |i: int|
                if 0 <= i < items@.len() as int / 2 {
                    (seq_views(items@)[i], seq_views(items@)[items@.len() as int / 2 + i])
                } else {
                    (Seq::<u8>::empty(), Seq::<u8>::empty())
                },
        ),
{
    broadcast use crate::stream::lemma_streams_model_index, crate::store::lemma_seq_views_index;

    let h = items.len() / 2;
    let ghost target = Seq::new(
        (items@.len() / 2) as nat,
        |i: int|
            if 0 <= i < items@.len() as int / 2 {
                (seq_views(items@)[i], seq_views(items@)[items@.len() as int / 2 + i])
            } else {
                (Seq::<u8>::empty(), Seq::<u8>::empty())
            },
    );
    let mut out: Vec<(Vec<u8>, Vec<u8>)> = Vec::new();
    let mut i: usize = 0;
    proof {
        assert(crate::stream::streams_model(out@) =~= target.take(0));
    }
    while i < h
        invariant
            0 <= i <= h,
            h == items@.len() / 2,
            items@.len() % 2 == 0,
            crate::stream::streams_model(out@) =~= target.take(i as int),
        decreases h - i,
    {
        let k = crate::store::clone_bytes(&items[i]);
        let v = crate::store::clone_bytes(&items[h + i]);
        let ghost preo = out@;
        out.push((k, v));
        proof {
            assert forall|y: int| 0 <= y < out@.len() implies #[trigger] crate::stream::streams_model(
                out@,
            )[y] == target.take(i as int + 1)[y] by {
                if y < preo.len() {
                    assert(out@[y] == preo[y]);
                } else {
                    assert(target[y] == (seq_views(items@)[y], seq_views(items@)[items@.len() as int
                        / 2 + y]));
                }
            }
            assert(crate::stream::streams_model(out@) =~= target.take(i as int + 1));
        }
        i = i + 1;
    }
    proof {
        assert(target.take(h as int) =~= target);
    }
    out
}


} // verus!
