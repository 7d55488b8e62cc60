//! Streams: ordered records of field-value pairs keyed by (ms, seq) ids.

use vstd::prelude::*;

use crate::list::entry_expiry;
use crate::store::{
    clone_bytes, lemma_lookup_push, lemma_lookup_update, obj_live, MemoryStorage, RedisDataType,
    RedisObject, VModel,
};
use crate::util::{find_from, spec_parse_u64};

verus! {

/// One stream record: its id (milliseconds, sequence) and its field-value
/// pairs.
pub struct StreamRecord {
    pub ms: u64,
    pub seq: u64,
    pub fields: Vec<(Vec<u8>, Vec<u8>)>,
}

/// Strict id order: lexicographic on (ms, seq).
pub open spec fn id_lt(a_ms: u64, a_seq: u64, b_ms: u64, b_seq: u64) -> bool {
    a_ms < b_ms || (a_ms == b_ms && a_seq < b_seq)
}

/// Views of a record's field pairs.
pub open spec fn fields_model(s: Seq<(Vec<u8>, Vec<u8>)>) -> Seq<(Seq<u8>, Seq<u8>)> {
    Seq::new(
        s.len(),
        |i: int|
            if 0 <= i < s.len() {
                (s[i].0@, s[i].1@)
            } else {
                (Seq::empty(), Seq::empty())
            },
    )
}

/// Model of a run of records.
pub open spec fn stream_model(s: Seq<StreamRecord>) -> Seq<
    (u64, u64, Seq<(Seq<u8>, Seq<u8>)>),
> {
    Seq::new(
        s.len(),
        |i: int|
            if 0 <= i < s.len() {
                (s[i].ms, s[i].seq, fields_model(s[i].fields@))
            } else {
                (0u64, 0u64, Seq::empty())
            },
    )
}

/// Indexing a record's field model.
pub broadcast proof fn lemma_fields_model_index(s: Seq<(Vec<u8>, Vec<u8>)>, i: int)
    requires
        0 <= i < s.len(),
    ensures
        #[trigger] fields_model(s)[i] == (s[i].0@, s[i].1@),
{
}

/// Indexing a stream model.
pub broadcast proof fn lemma_stream_model_index(s: Seq<StreamRecord>, i: int)
    requires
        0 <= i < s.len(),
    ensures
        #[trigger] stream_model(s)[i] == (s[i].ms, s[i].seq, fields_model(s[i].fields@)),
{
}

/// Ids strictly increase along the stream.
pub open spec fn stream_sorted(s: Seq<StreamRecord>) -> bool {
    forall|i: int, j: int|
        0 <= i < j < s.len() ==> id_lt(
            (#[trigger] s[i]).ms,
            s[i].seq,
            (#[trigger] s[j]).ms,
            s[j].seq,
        )
}

/// A stream id at the model level.
pub open spec fn id_le(a_ms: u64, a_seq: u64, b_ms: u64, b_seq: u64) -> bool {
    a_ms < b_ms || (a_ms == b_ms && a_seq <= b_seq)
}

/// The top (largest) id of a stream model, or 0-0 when empty.
pub open spec fn stream_top(sm: Seq<(u64, u64, Seq<(Seq<u8>, Seq<u8>)>)>) -> (u64, u64) {
    if sm.len() == 0 {
        (0u64, 0u64)
    } else {
        (sm.last().0, sm.last().1)
    }
}

/// Parse an explicit stream id: `ms`, `ms-seq`, or `ms-*`; `*` or a missing
/// sequence takes the given default.
pub open spec fn spec_parse_plain_id(raw: Seq<u8>, default_seq: u64) -> Option<(u64, u64)> {
    let cut = find_from(raw, 0, 45);
    let ms_part = match cut {
        None => raw,
        Some(d) => raw.take(d),
    };
    let seq_part = match cut {
        None => None,
        Some(d) => Some(raw.skip(d + 1)),
    };
    match spec_parse_u64(ms_part) {
        None => None,
        Some(ms) => match seq_part {
            None => Some((ms as u64, default_seq)),
            Some(sp) => if sp =~= seq![42u8] {
                Some((ms as u64, default_seq))
            } else {
                match spec_parse_u64(sp) {
                    None => None,
                    Some(sq) => Some((ms as u64, sq as u64)),
                }
            },
        },
    }
}

/// Parse an XADD id against the stream's current top: `*` takes the clock
/// milliseconds; a `*` or missing sequence continues the top sequence at the
/// same millisecond, else starts at 0. A continuation past the largest
/// sequence is rejected.
pub open spec fn spec_parse_add_id(raw: Seq<u8>, now_ms: u64, top: (u64, u64)) -> Option<
    (u64, u64),
> {
    let cut = find_from(raw, 0, 45);
    let ms_part = match cut {
        None => raw,
        Some(d) => raw.take(d),
    };
    let seq_part = match cut {
        None => None,
        Some(d) => Some(raw.skip(d + 1)),
    };
    let ms_opt = if ms_part =~= seq![42u8] {
        Some(now_ms)
    } else {
        match spec_parse_u64(ms_part) {
            None => None,
            Some(m) => Some(m as u64),
        }
    };
    match ms_opt {
        None => None,
        Some(ms) => {
            let auto: Option<u64> = if ms == top.0 {
                if top.1 == u64::MAX {
                    None
                } else {
                    Some((top.1 + 1) as u64)
                }
            } else {
                Some(0u64)
            };
            match seq_part {
                None => match auto {
                    None => None,
                    Some(sq) => Some((ms, sq)),
                },
                Some(sp) => if sp =~= seq![42u8] {
                    match auto {
                        None => None,
                        Some(sq) => Some((ms, sq)),
                    }
                } else {
                    match spec_parse_u64(sp) {
                        None => None,
                        Some(sq) => Some((ms, sq as u64)),
                    }
                },
            }
        },
    }
}

/// Executable id split and parse against a default sequence.
#[verifier::loop_isolation(false)]
fn parse_plain_id(raw: &Vec<u8>, default_seq: u64) -> (r: Option<(u64, u64)>)
    ensures
        r == spec_parse_plain_id(raw@, default_seq),
{
    proof {
        crate::resp::lemma_find_from_props(raw@, 0, 45);
    }
    let cut = crate::util::find_byte(raw.as_slice(), 0, 45);
    match cut {
        None => {
            match crate::util::parse_u64(raw.as_slice()) {
                None => {
                    proof {
                        assert(raw@.take(raw@.len() as int) =~= raw@);
                    }
                    assert(spec_parse_plain_id(raw@, default_seq) is None);
                    None
                },
                Some(ms) => Some((ms, default_seq)),
            }
        },
        Some(d) => {
            let rl = raw.len();
            proof {
                assert(d < raw@.len());
            }
            let ms_part = vstd::slice::slice_subrange(raw.as_slice(), 0, d);
            proof {
                assert(ms_part@ =~= raw@.take(d as int));
            }
            let sp = vstd::slice::slice_subrange(raw.as_slice(), d + 1, rl);
            proof {
                assert(sp@ =~= raw@.skip(d as int + 1));
            }
            match crate::util::parse_u64(ms_part) {
                None => None,
                Some(ms) => {
                    if sp.len() == 1 && sp[0] == 42 {
                        proof {
                            assert(sp@ =~= seq![42u8]);
                        }
                        Some((ms, default_seq))
                    } else {
                        proof {
                            if sp@ =~= seq![42u8] {
                                assert(sp@.len() == 1 && sp@[0] == 42);
                            }
                        }
                        match crate::util::parse_u64(sp) {
                            None => None,
                            Some(sq) => Some((ms, sq)),
                        }
                    }
                },
            }
        },
    }
}

/// Records with ids in the inclusive window.
pub open spec fn spec_range_records(
    sm: Seq<(u64, u64, Seq<(Seq<u8>, Seq<u8>)>)>,
    lo: (u64, u64),
    hi: (u64, u64),
) -> Seq<(u64, u64, Seq<(Seq<u8>, Seq<u8>)>)>
    decreases sm.len(),
{
    if sm.len() == 0 {
        Seq::empty()
    } else {
        spec_range_records(sm.drop_last(), lo, hi) + if id_le(lo.0, lo.1, sm.last().0, sm.last().1)
            && id_le(sm.last().0, sm.last().1, hi.0, hi.1) {
            seq![sm.last()]
        } else {
            Seq::empty()
        }
    }
}

/// Records with ids strictly after `start`.
pub open spec fn spec_after_records(
    sm: Seq<(u64, u64, Seq<(Seq<u8>, Seq<u8>)>)>,
    start: (u64, u64),
) -> Seq<(u64, u64, Seq<(Seq<u8>, Seq<u8>)>)>
    decreases sm.len(),
{
    if sm.len() == 0 {
        Seq::empty()
    } else {
        spec_after_records(sm.drop_last(), start) + if id_lt(
            start.0,
            start.1,
            sm.last().0,
            sm.last().1,
        ) {
            seq![sm.last()]
        } else {
            Seq::empty()
        }
    }
}

/// The XREAD exclusivity law: the records served for a stream are exactly
/// `spec_after_records` of the resolved start id (see `spec_xread`), and
/// every record selected that way lies strictly past the start. A reader
/// registered at id `T` is therefore never handed an entry with id at or
/// before `T`.
pub proof fn lemma_after_records_exclusive(
    sm: Seq<(u64, u64, Seq<(Seq<u8>, Seq<u8>)>)>,
    start: (u64, u64),
)
    ensures
        forall|i: int|
            0 <= i < spec_after_records(sm, start).len() ==> id_lt(
                start.0,
                start.1,
                (#[trigger] spec_after_records(sm, start)[i]).0,
                spec_after_records(sm, start)[i].1,
            ),
    decreases sm.len(),
{
    if sm.len() > 0 {
        lemma_after_records_exclusive(sm.drop_last(), start);
        let f = spec_after_records(sm, start);
        let fd = spec_after_records(sm.drop_last(), start);
        assert forall|i: int| 0 <= i < f.len() implies id_lt(
            start.0,
            start.1,
            (#[trigger] f[i]).0,
            f[i].1,
        ) by {
            if i < fd.len() {
                assert(f[i] == fd[i]);
            } else {
                assert(f[i] == sm.last());
            }
        }
    }
}

/// A fresh copy of a record.
fn clone_record(r: &StreamRecord) -> (out: StreamRecord)
    ensures
        out.ms == r.ms,
        out.seq == r.seq,
        fields_model(out.fields@) == fields_model(r.fields@),
{
    broadcast use lemma_fields_model_index;

    let mut fields: Vec<(Vec<u8>, Vec<u8>)> = Vec::new();
    let mut i: usize = 0;
    while i < r.fields.len()
        invariant
            0 <= i <= r.fields@.len(),
            fields@.len() == i,
            fields_model(fields@) =~= fields_model(r.fields@).take(i as int),
        decreases r.fields@.len() - i,
    {
        let ghost pre = fields@;
        fields.push((clone_bytes(&r.fields[i].0), clone_bytes(&r.fields[i].1)));
        proof {
            assert forall|x: int| 0 <= x < fields@.len() implies #[trigger] fields_model(
                fields@,
            )[x] == fields_model(r.fields@).take(i as int + 1)[x] by {
                lemma_fields_model_index(fields@, x);
                lemma_fields_model_index(r.fields@, x);
                if x < pre.len() {
                    assert(fields@[x] == pre[x]);
                    lemma_fields_model_index(pre, x);
                } else {
                    assert(fields@[x] == (fields@[x].0, fields@[x].1));
                }
            }
            assert(fields_model(fields@) =~= fields_model(r.fields@).take(i as int + 1));
        }
        i = i + 1;
    }
    proof {
        assert(fields_model(r.fields@).take(r.fields@.len() as int) =~= fields_model(r.fields@));
    }
    StreamRecord { ms: r.ms, seq: r.seq, fields }
}


/// The XADD and XRANGE error messages.
pub open spec fn spec_invalid_id() -> Seq<u8> {
    seq![69u8, 82u8, 82u8, 32u8, 105u8, 110u8, 118u8, 97u8, 108u8, 105u8, 100u8, 32u8, 73u8, 68u8]
}

pub open spec fn spec_zero_id_error() -> Seq<u8> {
    seq![69u8, 82u8, 82u8, 32u8, 84u8, 104u8, 101u8, 32u8, 73u8, 68u8, 32u8, 115u8, 112u8, 101u8, 99u8, 105u8, 102u8, 105u8, 101u8, 100u8, 32u8, 105u8, 110u8, 32u8, 88u8, 65u8, 68u8, 68u8, 32u8, 109u8, 117u8, 115u8, 116u8, 32u8, 98u8, 101u8, 32u8, 103u8, 114u8, 101u8, 97u8, 116u8, 101u8, 114u8, 32u8, 116u8, 104u8, 97u8, 110u8, 32u8, 48u8, 45u8, 48u8]
}

pub open spec fn spec_small_id_error() -> Seq<u8> {
    seq![69u8, 82u8, 82u8, 32u8, 84u8, 104u8, 101u8, 32u8, 73u8, 68u8, 32u8, 115u8, 112u8, 101u8, 99u8, 105u8, 102u8, 105u8, 101u8, 100u8, 32u8, 105u8, 110u8, 32u8, 88u8, 65u8, 68u8, 68u8, 32u8, 105u8, 115u8, 32u8, 101u8, 113u8, 117u8, 97u8, 108u8, 32u8, 111u8, 114u8, 32u8, 115u8, 109u8, 97u8, 108u8, 108u8, 101u8, 114u8, 32u8, 116u8, 104u8, 97u8, 110u8, 32u8, 116u8, 104u8, 101u8, 32u8, 116u8, 97u8, 114u8, 103u8, 101u8, 116u8, 32u8, 115u8, 116u8, 114u8, 101u8, 97u8, 109u8, 32u8, 116u8, 111u8, 112u8, 32u8, 105u8, 116u8, 101u8, 109u8]
}

pub open spec fn spec_not_stream() -> Seq<u8> {
    seq![78u8, 111u8, 116u8, 32u8, 97u8, 32u8, 115u8, 116u8, 114u8, 101u8, 97u8, 109u8]
}

fn invalid_id() -> (r: Vec<u8>)
    ensures
        r@ == spec_invalid_id(),
{
    let mut v: Vec<u8> = Vec::new();
    v.push(69);
    v.push(82);
    v.push(82);
    v.push(32);
    v.push(105);
    v.push(110);
    v.push(118);
    v.push(97);
    v.push(108);
    v.push(105);
    v.push(100);
    v.push(32);
    v.push(73);
    v.push(68);
    assert(v@ =~= spec_invalid_id());
    v
}

fn zero_id_error() -> (r: Vec<u8>)
    ensures
        r@ == spec_zero_id_error(),
{
    let mut v: Vec<u8> = Vec::new();
    v.push(69);
    v.push(82);
    v.push(82);
    v.push(32);
    v.push(84);
    v.push(104);
    v.push(101);
    v.push(32);
    v.push(73);
    v.push(68);
    v.push(32);
    v.push(115);
    v.push(112);
    v.push(101);
    v.push(99);
    v.push(105);
    v.push(102);
    v.push(105);
    v.push(101);
    v.push(100);
    v.push(32);
    v.push(105);
    v.push(110);
    v.push(32);
    v.push(88);
    v.push(65);
    v.push(68);
    v.push(68);
    v.push(32);
    v.push(109);
    v.push(117);
    v.push(115);
    v.push(116);
    v.push(32);
    v.push(98);
    v.push(101);
    v.push(32);
    v.push(103);
    v.push(114);
    v.push(101);
    v.push(97);
    v.push(116);
    v.push(101);
    v.push(114);
    v.push(32);
    v.push(116);
    v.push(104);
    v.push(97);
    v.push(110);
    v.push(32);
    v.push(48);
    v.push(45);
    v.push(48);
    assert(v@ =~= spec_zero_id_error());
    v
}

fn small_id_error() -> (r: Vec<u8>)
    ensures
        r@ == spec_small_id_error(),
{
    let mut v: Vec<u8> = Vec::new();
    v.push(69);
    v.push(82);
    v.push(82);
    v.push(32);
    v.push(84);
    v.push(104);
    v.push(101);
    v.push(32);
    v.push(73);
    v.push(68);
    v.push(32);
    v.push(115);
    v.push(112);
    v.push(101);
    v.push(99);
    v.push(105);
    v.push(102);
    v.push(105);
    v.push(101);
    v.push(100);
    v.push(32);
    v.push(105);
    v.push(110);
    v.push(32);
    v.push(88);
    v.push(65);
    v.push(68);
    v.push(68);
    v.push(32);
    v.push(105);
    v.push(115);
    v.push(32);
    v.push(101);
    v.push(113);
    v.push(117);
    v.push(97);
    v.push(108);
    v.push(32);
    v.push(111);
    v.push(114);
    v.push(32);
    v.push(115);
    v.push(109);
    v.push(97);
    v.push(108);
    v.push(108);
    v.push(101);
    v.push(114);
    v.push(32);
    v.push(116);
    v.push(104);
    v.push(97);
    v.push(110);
    v.push(32);
    v.push(116);
    v.push(104);
    v.push(101);
    v.push(32);
    v.push(116);
    v.push(97);
    v.push(114);
    v.push(103);
    v.push(101);
    v.push(116);
    v.push(32);
    v.push(115);
    v.push(116);
    v.push(114);
    v.push(101);
    v.push(97);
    v.push(109);
    v.push(32);
    v.push(116);
    v.push(111);
    v.push(112);
    v.push(32);
    v.push(105);
    v.push(116);
    v.push(101);
    v.push(109);
    assert(v@ =~= spec_small_id_error());
    v
}

fn not_stream() -> (r: Vec<u8>)
    ensures
        r@ == spec_not_stream(),
{
    let mut v: Vec<u8> = Vec::new();
    v.push(78);
    v.push(111);
    v.push(116);
    v.push(32);
    v.push(97);
    v.push(32);
    v.push(115);
    v.push(116);
    v.push(114);
    v.push(101);
    v.push(97);
    v.push(109);
    assert(v@ =~= spec_not_stream());
    v
}

impl MemoryStorage {
    /// XADD: append a record under the given or generated id, which must be
    /// strictly greater than the stream's top id and never 0-0; the id used.
    /// Fails on a live value of another type and changes nothing.
    pub fn xadd(
        &mut self,
        key: &Vec<u8>,
        id_raw: &Vec<u8>,
        data: Vec<(Vec<u8>, Vec<u8>)>,
        now: u64,
        gen_ms: u64,
    ) -> (r: Result<(u64, u64), Vec<u8>>)
        requires
            old(self).wf(),
        ensures
            final(self).wf(),
            forall|k2: Seq<u8>|
                k2 != key@ ==> #[trigger] final(self).spec_entry(k2) == old(self).spec_entry(k2),
            ({
                let base = match old(self).spec_get(key@, now) {
                    Some(VModel::MStream(sm)) => sm,
                    _ => Seq::empty(),
                };
                let top = stream_top(base);
                let wrong_type = old(self).spec_get(key@, now) matches Some(v) && !(
                v is MStream);
                match r {
                    Ok(id) => ({
                        &&& !wrong_type
                        &&& spec_parse_add_id(id_raw@, gen_ms, top) == Some(id)
                        &&& id != (0u64, 0u64)
                        &&& id_lt(top.0, top.1, id.0, id.1) || base.len() == 0
                        &&& (final(self).spec_entry(key@) matches Some(e) && e.0 == (
                        if old(self).spec_get(key@, now) is Some {
                            crate::list::entry_expiry(old(self).spec_entry(key@))
                        } else {
                            None
                        }) && (e.1 matches VModel::MStream(sm2) && sm2 == base.push(
                            (id.0, id.1, fields_model(data@)),
                        )))
                    }),
                    Err(e) => final(self).entries@ == old(self).entries@ && (wrong_type && e@
                        == spec_not_stream() || !wrong_type && (match spec_parse_add_id(
                        id_raw@,
                        gen_ms,
                        top,
                    ) {
                        None => e@ == spec_invalid_id(),
                        Some(id) => (id == (0u64, 0u64) && e@ == spec_zero_id_error()) || (id != (
                        0u64,
                        0u64,
                        ) && !id_lt(top.0, top.1, id.0, id.1) && base.len() > 0 && e@
                            == spec_small_id_error()),
                    })),
                }
            }),
    {
        broadcast use lemma_stream_model_index, lemma_fields_model_index;

        let ghost old_self = *self;
        let mut stream: Vec<StreamRecord> = Vec::new();
        let mut exp: Option<u64> = None;
        let mut at: Option<usize> = None;
        match self.find_idx(key) {
            None => {},
            Some(i) => {
                let o = &self.entries[i].1;
                if obj_live(o, now) {
                    match &o.data {
                        RedisDataType::Stream(_) => {},
                        _ => {
                            return Err(not_stream());
                        },
                    }
                }
                at = Some(i);
            },
        }
        // Work out the top id without disturbing the entries yet.
        let mut top_ms: u64 = 0;
        let mut top_seq: u64 = 0;
        let mut has_live = false;
        match at {
            Some(i) => {
                let o = &self.entries[i].1;
                if obj_live(o, now) {
                    match &o.data {
                        RedisDataType::Stream(st) => {
                            has_live = true;
                            if st.len() > 0 {
                                top_ms = st[st.len() - 1].ms;
                                top_seq = st[st.len() - 1].seq;
                            }
                        },
                        _ => {
                            proof {
                                assert(false);
                            }
                        },
                    }
                }
            },
            None => {},
        }
        let ghost base = (match old(self).spec_get(key@, now) {
            Some(VModel::MStream(sm)) => sm,
            _ => Seq::empty(),
        });
        proof {
            if has_live {
                assert((top_ms, top_seq) == stream_top(base));
            } else {
                assert(base =~= Seq::<(u64, u64, Seq<(Seq<u8>, Seq<u8>)>)>::empty());
            }
        }
        let id = match parse_add_id(id_raw, gen_ms, top_ms, top_seq) {
            None => {
                return Err(invalid_id());
            },
            Some(id) => id,
        };
        if id.0 == 0 && id.1 == 0 {
            return Err(zero_id_error());
        }
        let top_nonempty = {
            let mut ne = false;
            match at {
                Some(i) => {
                    let o = &self.entries[i].1;
                    if obj_live(o, now) {
                        ne = true;
                    }
                },
                None => {},
            }
            ne
        };
        if top_nonempty {
            // reject ids at or below the current top
            let gt = if id.0 > top_ms {
                true
            } else if id.0 == top_ms && id.1 > top_seq {
                true
            } else {
                false
            };
            if !gt {
                proof {
                    if base.len() == 0 {
                        assert(stream_top(base) == (0u64, 0u64));
                        assert(!(id == (0u64, 0u64)));
                        assert(id_lt(0, 0, id.0, id.1)) by {
                            assert(id.0 > 0 || id.1 > 0);
                        }
                        assert(false);
                    }
                }
                return Err(small_id_error());
            }
        }
        // Append the record.
        let idx_opt = at;
        match idx_opt {
            Some(i) => {
                let (k, o) = self.entries.remove(i);
                let live_now = obj_live(&o, now);
                let RedisObject { expires_at, data } = o;
                if live_now {
                    exp = expires_at;
                    match data {
                        RedisDataType::Stream(st) => {
                            stream = st;
                        },
                        _ => {
                            proof {
                                assert(false);
                            }
                        },
                    }
                }
                let _ = k;
            },
            None => {},
        }
        let ghost prest = stream@;
        stream.push(StreamRecord { ms: id.0, seq: id.1, fields: data });
        proof {
            assert forall|x: int| 0 <= x < stream@.len() implies #[trigger] stream_model(
                stream@,
            )[x] == base.push((id.0, id.1, fields_model(stream@.last().fields@)))[x] by {
                if x < prest.len() {
                    assert(stream@[x] == prest[x]);
                }
            }
            assert(stream_model(stream@) =~= base.push(
                (id.0, id.1, fields_model(stream@.last().fields@)),
            ));
            assert forall|a: int, b: int| 0 <= a < b < stream@.len() implies id_lt(
                (#[trigger] stream@[a]).ms,
                stream@[a].seq,
                (#[trigger] stream@[b]).ms,
                stream@[b].seq,
            ) by {
                if b == stream@.len() - 1 {
                    if prest.len() > 0 {
                        assert(stream@[a] == prest[a]);
                        assert(stream_top(base) == (prest[prest.len() - 1].ms, prest[prest.len()
                            - 1].seq));
                        if a < prest.len() - 1 {
                            assert(id_lt(
                                prest[a].ms,
                                prest[a].seq,
                                prest[prest.len() - 1].ms,
                                prest[prest.len() - 1].seq,
                            ));
                        }
                    }
                } else {
                    assert(stream@[a] == prest[a] && stream@[b] == prest[b]);
                }
            }
        }
        let new_obj = RedisObject { expires_at: exp, data: RedisDataType::Stream(stream) };
        match idx_opt {
            Some(i) => {
                self.entries.insert(i, (clone_bytes(key), new_obj));
                proof {
                    assert(self.entries@ =~= old_self.entries@.update(
                        i as int,
                        (self.entries@[i as int].0, new_obj),
                    ));
                    lemma_lookup_update(
                        old_self.entries@,
                        i as int,
                        (self.entries@[i as int].0, new_obj),
                    );
                }
            },
            None => {
                let kc = clone_bytes(key);
                let ghost prev = self.entries@;
                self.entries.push((kc, new_obj));
                proof {
                    lemma_lookup_push(prev, prev.push((kc, new_obj)).last());
                    assert(self.entries@ =~= prev.push(prev.push((kc, new_obj)).last()));
                }
            },
        }
        Ok(id)
    }

    /// XLEN: the number of records; 0 for a missing key or another type.
    pub fn xlen(&self, key: &Vec<u8>, now: u64) -> (r: i64)
        ensures
            r == match self.spec_get(key@, now) {
                Some(VModel::MStream(sm)) => if sm.len() <= i64::MAX {
                    sm.len() as int
                } else {
                    0
                },
                _ => 0,
            },
    {
        match self.find_idx(key) {
            None => 0,
            Some(i) => {
                let o = &self.entries[i].1;
                if !obj_live(o, now) {
                    return 0;
                }
                match &o.data {
                    RedisDataType::Stream(st) => {
                        let n = st.len();
                        if n as u64 <= 0x7FFFFFFFFFFFFFFFu64 {
                            n as i64
                        } else {
                            0
                        }
                    },
                    _ => 0,
                }
            },
        }
    }

    /// XRANGE: the records whose ids fall in the inclusive window given by
    /// the `-`/`+` sentinels or partial ids; empty for a missing key or
    /// another type. Fails only on an unparsable bound.
    #[verifier::loop_isolation(false)]
    pub fn xrange(&self, key: &Vec<u8>, start_raw: &Vec<u8>, end_raw: &Vec<u8>, now: u64) -> (r:
        Result<Vec<StreamRecord>, Vec<u8>>)
        ensures
            ({
                let lo = if start_raw@ =~= seq![45u8] {
                    Some((0u64, 0u64))
                } else {
                    spec_parse_plain_id(start_raw@, 0)
                };
                let hi = if end_raw@ =~= seq![43u8] {
                    Some((u64::MAX, u64::MAX))
                } else {
                    spec_parse_plain_id(end_raw@, u64::MAX)
                };
                match r {
                    Ok(out) => lo is Some && hi is Some && stream_model(out@) == (
                    match self.spec_get(key@, now) {
                        Some(VModel::MStream(sm)) => spec_range_records(sm, lo->0, hi->0),
                        _ => Seq::empty(),
                    }),
                    Err(e) => (lo is None || hi is None) && e@ == spec_invalid_id(),
                }
            }),
    {
        broadcast use lemma_stream_model_index;

        let lo = if start_raw.len() == 1 && start_raw[0] == 45 {
            proof {
                assert(start_raw@ =~= seq![45u8]);
            }
            (0u64, 0u64)
        } else {
            proof {
                if start_raw@ =~= seq![45u8] {
                    assert(start_raw@.len() == 1 && start_raw@[0] == 45);
                }
            }
            match parse_plain_id(start_raw, 0) {
                None => {
                    return Err(invalid_id());
                },
                Some(x) => x,
            }
        };
        let hi = if end_raw.len() == 1 && end_raw[0] == 43 {
            proof {
                assert(end_raw@ =~= seq![43u8]);
            }
            (u64::MAX, u64::MAX)
        } else {
            proof {
                if end_raw@ =~= seq![43u8] {
                    assert(end_raw@.len() == 1 && end_raw@[0] == 43);
                }
            }
            match parse_plain_id(end_raw, u64::MAX) {
                None => {
                    return Err(invalid_id());
                },
                Some(x) => x,
            }
        };
        let mut out: Vec<StreamRecord> = Vec::new();
        let st = match self.find_idx(key) {
            None => {
                proof {
                    assert(stream_model(out@) =~= Seq::<
                        (u64, u64, Seq<(Seq<u8>, Seq<u8>)>),
                    >::empty());
                }
                return Ok(out);
            },
            Some(i) => {
                let o = &self.entries[i].1;
                if !obj_live(o, now) {
                    proof {
                        assert(stream_model(out@) =~= Seq::<
                            (u64, u64, Seq<(Seq<u8>, Seq<u8>)>),
                        >::empty());
                    }
                    return Ok(out);
                }
                match &o.data {
                    RedisDataType::Stream(st) => st,
                    _ => {
                        proof {
                            assert(stream_model(out@) =~= Seq::<
                                (u64, u64, Seq<(Seq<u8>, Seq<u8>)>),
                            >::empty());
                        }
                        return Ok(out);
                    },
                }
            },
        };
        let ghost sm = stream_model(st@);
        let mut i: usize = 0;
        while i < st.len()
            invariant
                0 <= i <= st@.len(),
                stream_model(out@) =~= spec_range_records(sm.take(i as int), lo, hi),
            decreases st@.len() - i,
        {
            proof {
                assert(sm.take(i as int + 1).drop_last() =~= sm.take(i as int));
                assert(sm.take(i as int + 1).last() == sm[i as int]);
            }
            let rec = &st[i];
            let in_lo = if lo.0 < rec.ms {
                true
            } else if lo.0 == rec.ms && lo.1 <= rec.seq {
                true
            } else {
                false
            };
            let in_hi = if rec.ms < hi.0 {
                true
            } else if rec.ms == hi.0 && rec.seq <= hi.1 {
                true
            } else {
                false
            };
            if in_lo && in_hi {
                let ghost preo = out@;
                out.push(clone_record(rec));
                proof {
                    assert forall|x: int| 0 <= x < out@.len() implies #[trigger] stream_model(
                        out@,
                    )[x] == spec_range_records(sm.take(i as int + 1), lo, hi)[x] by {
                        if x < preo.len() {
                            assert(out@[x] == preo[x]);
                        }
                    }
                    assert(stream_model(out@) =~= spec_range_records(sm.take(i as int + 1), lo, hi));
                }
            }
            i = i + 1;
        }
        proof {
            assert(sm.take(st@.len() as int) =~= sm);
        }
        Ok(out)
    }
}

/// Executable XADD id parsing.
#[verifier::loop_isolation(false)]
fn parse_add_id(raw: &Vec<u8>, now_ms: u64, top_ms: u64, top_seq: u64) -> (r: Option<(u64, u64)>)
    ensures
        r == spec_parse_add_id(raw@, now_ms, (top_ms, top_seq)),
{
    proof {
        crate::resp::lemma_find_from_props(raw@, 0, 45);
    }
    let cut = crate::util::find_byte(raw.as_slice(), 0, 45);
    let auto: Option<u64> = if top_seq == u64::MAX {
        None
    } else {
        Some(top_seq + 1)
    };
    match cut {
        None => {
            let ms = if raw.len() == 1 && raw[0] == 42 {
                proof {
                    assert(raw@ =~= seq![42u8]);
                }
                now_ms
            } else {
                proof {
                    if raw@ =~= seq![42u8] {
                        assert(raw@.len() == 1 && raw@[0] == 42);
                    }
                    assert(raw@.take(raw@.len() as int) =~= raw@);
                }
                match crate::util::parse_u64(raw.as_slice()) {
                    None => {
                        return None;
                    },
                    Some(m) => m,
                }
            };
            if ms == top_ms {
                match auto {
                    None => None,
                    Some(sq) => Some((ms, sq)),
                }
            } else {
                Some((ms, 0))
            }
        },
        Some(d) => {
            let rl = raw.len();
            proof {
                assert(d < raw@.len());
            }
            let ms_part = vstd::slice::slice_subrange(raw.as_slice(), 0, d);
            proof {
                assert(ms_part@ =~= raw@.take(d as int));
            }
            let sp = vstd::slice::slice_subrange(raw.as_slice(), d + 1, rl);
            proof {
                assert(sp@ =~= raw@.skip(d as int + 1));
            }
            let ms = if ms_part.len() == 1 && ms_part[0] == 42 {
                proof {
                    assert(ms_part@ =~= seq![42u8]);
                }
                now_ms
            } else {
                proof {
                    if ms_part@ =~= seq![42u8] {
                        assert(ms_part@.len() == 1 && ms_part@[0] == 42);
                    }
                }
                match crate::util::parse_u64(ms_part) {
                    None => {
                        return None;
                    },
                    Some(m) => m,
                }
            };
            if sp.len() == 1 && sp[0] == 42 {
                proof {
                    assert(sp@ =~= seq![42u8]);
                }
                if ms == top_ms {
                    match auto {
                        None => None,
                        Some(sq) => Some((ms, sq)),
                    }
                } else {
                    Some((ms, 0))
                }
            } else {
                proof {
                    if sp@ =~= seq![42u8] {
                        assert(sp@.len() == 1 && sp@[0] == 42);
                    }
                }
                match crate::util::parse_u64(sp) {
                    None => None,
                    Some(sq) => Some((ms, sq)),
                }
            }
        },
    }
}


/// Model of the parsed-ids list.
pub open spec fn parsed_model(s: Seq<(Vec<u8>, (u64, u64))>) -> Seq<(Seq<u8>, (u64, u64))> {
    Seq::new(
        s.len(),
        |i: int|
            if 0 <= i < s.len() {
                (s[i].0@, s[i].1)
            } else {
                (Seq::empty(), (0u64, 0u64))
            },
    )
}

/// Model of the responses list.
pub open spec fn resp_model(s: Seq<(Vec<u8>, Vec<StreamRecord>)>) -> Seq<
    (Seq<u8>, Seq<(u64, u64, Seq<(Seq<u8>, Seq<u8>)>)>),
> {
    Seq::new(
        s.len(),
        |i: int|
            if 0 <= i < s.len() {
                (s[i].0@, stream_model(s[i].1@))
            } else {
                (Seq::empty(), Seq::empty())
            },
    )
}

pub broadcast proof fn lemma_parsed_model_index(s: Seq<(Vec<u8>, (u64, u64))>, i: int)
    requires
        0 <= i < s.len(),
    ensures
        #[trigger] parsed_model(s)[i] == (s[i].0@, s[i].1),
{
}

pub broadcast proof fn lemma_resp_model_index(s: Seq<(Vec<u8>, Vec<StreamRecord>)>, i: int)
    requires
        0 <= i < s.len(),
    ensures
        #[trigger] resp_model(s)[i] == (s[i].0@, stream_model(s[i].1@)),
{
}

/// What XREAD reads: for each `(key, id)` pair in order, the resolved start
/// id (`$` is the stream's current top, or 0-0 when there is no stream), and,
/// for streams with records strictly after the start, those records. Nothing
/// when an id does not parse.
pub open spec fn spec_xread(s: MemoryStorage, streams: Seq<(Seq<u8>, Seq<u8>)>, now: u64) -> Option<
    (Seq<(Seq<u8>, (u64, u64))>, Seq<(Seq<u8>, Seq<(u64, u64, Seq<(Seq<u8>, Seq<u8>)>)>)>),
>
    decreases streams.len(),
{
    if streams.len() == 0 {
        Some((Seq::empty(), Seq::empty()))
    } else {
        match spec_xread(s, streams.drop_last(), now) {
            None => None,
            Some((ps, rs)) => {
                let k = streams.last().0;
                let idr = streams.last().1;
                match s.spec_get(k, now) {
                    Some(VModel::MStream(sm)) => {
                        let start_opt = if idr =~= seq![36u8] {
                            Some(stream_top(sm))
                        } else {
                            spec_parse_plain_id(idr, 0)
                        };
                        match start_opt {
                            None => None,
                            Some(start) => {
                                let ents = spec_after_records(sm, start);
                                if ents.len() > 0 {
                                    Some((ps.push((k, start)), rs.push((k, ents))))
                                } else {
                                    Some((ps.push((k, start)), rs))
                                }
                            },
                        }
                    },
                    _ => {
                        let start_opt = if idr =~= seq![36u8] {
                            Some((0u64, 0u64))
                        } else {
                            spec_parse_plain_id(idr, 0)
                        };
                        match start_opt {
                            None => None,
                            Some(start) => Some((ps.push((k, start)), rs)),
                        }
                    },
                }
            },
        }
    }
}

/// Model of the XREAD request list.
pub open spec fn streams_model(s: Seq<(Vec<u8>, Vec<u8>)>) -> Seq<(Seq<u8>, Seq<u8>)> {
    Seq::new(
        s.len(),
        |i: int|
            if 0 <= i < s.len() {
                (s[i].0@, s[i].1@)
            } else {
                (Seq::empty(), Seq::empty())
            },
    )
}

pub broadcast proof fn lemma_streams_model_index(s: Seq<(Vec<u8>, Vec<u8>)>, i: int)
    requires
        0 <= i < s.len(),
    ensures
        #[trigger] streams_model(s)[i] == (s[i].0@, s[i].1@),
{
}

impl MemoryStorage {
    /// XREAD: the parsed start ids and, per stream with news, the records
    /// strictly after the start.
    #[verifier::loop_isolation(false)]
    pub fn xread(&self, streams: &Vec<(Vec<u8>, Vec<u8>)>, now: u64) -> (r: Result<
        (Vec<(Vec<u8>, (u64, u64))>, Vec<(Vec<u8>, Vec<StreamRecord>)>),
        Vec<u8>,
    >)
        ensures
            match r {
                Ok((parsed, resp)) => spec_xread(*self, streams_model(streams@), now) == Some(
                    (parsed_model(parsed@), resp_model(resp@)),
                ),
                Err(e) => spec_xread(*self, streams_model(streams@), now) is None && e@
                    == spec_invalid_id(),
            },
    {
        broadcast use lemma_parsed_model_index, lemma_resp_model_index, lemma_streams_model_index, lemma_stream_model_index;

        let ghost smod = streams_model(streams@);
        let mut parsed: Vec<(Vec<u8>, (u64, u64))> = Vec::new();
        let mut resp: Vec<(Vec<u8>, Vec<StreamRecord>)> = Vec::new();
        let mut i: usize = 0;
        proof {
            assert(smod.take(0) =~= Seq::<(Seq<u8>, Seq<u8>)>::empty());
            assert(parsed_model(parsed@) =~= Seq::<(Seq<u8>, (u64, u64))>::empty());
            assert(resp_model(resp@) =~= Seq::<
                (Seq<u8>, Seq<(u64, u64, Seq<(Seq<u8>, Seq<u8>)>)>),
            >::empty());
        }
        while i < streams.len()
            invariant
                0 <= i <= streams@.len(),
                spec_xread(*self, smod.take(i as int), now) == Some(
                    (parsed_model(parsed@), resp_model(resp@)),
                ),
            decreases streams@.len() - i,
        {
            proof {
                assert(smod.take(i as int + 1).drop_last() =~= smod.take(i as int));
                assert(smod.take(i as int + 1).last() == smod[i as int]);
            }
            let key = &streams[i].0;
            let idr = &streams[i].1;
            let is_dollar = idr.len() == 1 && idr[0] == 36;
            proof {
                if idr@ =~= seq![36u8] {
                    assert(idr@.len() == 1 && idr@[0] == 36);
                }
            }
            // Find the live stream, if any.
            let mut have: bool = false;
            let mut top_ms: u64 = 0;
            let mut top_seq: u64 = 0;
            let mut at_idx: usize = 0;
            match self.find_idx(key) {
                None => {},
                Some(j) => {
                    let o = &self.entries[j].1;
                    if obj_live(o, now) {
                        match &o.data {
                            RedisDataType::Stream(st) => {
                                have = true;
                                at_idx = j;
                                if st.len() > 0 {
                                    top_ms = st[st.len() - 1].ms;
                                    top_seq = st[st.len() - 1].seq;
                                }
                            },
                            _ => {},
                        }
                    }
                },
            }
            let start = if is_dollar {
                if have {
                    (top_ms, top_seq)
                } else {
                    (0u64, 0u64)
                }
            } else {
                match parse_plain_id(idr, 0) {
                    None => {
                        proof {
                            assert(spec_xread(*self, smod.take(i as int + 1), now) is None);
                            lemma_xread_none_prefix(*self, smod, now, i as int + 1);
                        }
                        return Err(invalid_id());
                    },
                    Some(x) => x,
                }
            };
            if have {
                let o = &self.entries[at_idx].1;
                match &o.data {
                    RedisDataType::Stream(st) => {
                        proof {
                            if st@.len() > 0 {
                                assert((top_ms, top_seq) == stream_top(stream_model(st@)));
                            }
                        }
                        let ghost sm = stream_model(st@);
                        let mut ents: Vec<StreamRecord> = Vec::new();
                        let mut x: usize = 0;
                        proof {
                            assert(stream_model(ents@) =~= spec_after_records(sm.take(0), start));
                        }
                        while x < st.len()
                            invariant
                                0 <= x <= st@.len(),
                                stream_model(ents@) =~= spec_after_records(sm.take(x as int), start),
                            decreases st@.len() - x,
                        {
                            proof {
                                assert(sm.take(x as int + 1).drop_last() =~= sm.take(x as int));
                                assert(sm.take(x as int + 1).last() == sm[x as int]);
                            }
                            let rec = &st[x];
                            let after = if start.0 < rec.ms {
                                true
                            } else if start.0 == rec.ms && start.1 < rec.seq {
                                true
                            } else {
                                false
                            };
                            if after {
                                let ghost pree = ents@;
                                ents.push(clone_record(rec));
                                proof {
                                    assert forall|y: int| 0 <= y < ents@.len() implies
                                        #[trigger] stream_model(ents@)[y] == spec_after_records(
                                        sm.take(x as int + 1),
                                        start,
                                    )[y] by {
                                        if y < pree.len() {
                                            assert(ents@[y] == pree[y]);
                                        }
                                    }
                                    assert(stream_model(ents@) =~= spec_after_records(
                                        sm.take(x as int + 1),
                                        start,
                                    ));
                                }
                            }
                            x = x + 1;
                        }
                        proof {
                            assert(sm.take(st@.len() as int) =~= sm);
                        }
                        let ghost prep = parsed@;
                        parsed.push((clone_bytes(key), start));
                        proof {
                            assert forall|y: int| 0 <= y < parsed@.len() implies
                                #[trigger] parsed_model(parsed@)[y] == parsed_model(prep).push(
                                (key@, start),
                            )[y] by {
                                if y < prep.len() {
                                    assert(parsed@[y] == prep[y]);
                                }
                            }
                            assert(parsed_model(parsed@) =~= parsed_model(prep).push(
                                (key@, start),
                            ));
                        }
                        if ents.len() > 0 {
                            let ghost prer = resp@;
                            resp.push((clone_bytes(key), ents));
                            proof {
                                assert forall|y: int| 0 <= y < resp@.len() implies
                                    #[trigger] resp_model(resp@)[y] == resp_model(prer).push(
                                    (key@, spec_after_records(sm, start)),
                                )[y] by {
                                    if y < prer.len() {
                                        assert(resp@[y] == prer[y]);
                                    }
                                }
                                assert(resp_model(resp@) =~= resp_model(prer).push(
                                    (key@, spec_after_records(sm, start)),
                                ));
                            }
                        }
                    },
                    _ => {
                        proof {
                            assert(false);
                        }
                    },
                }
            } else {
                let ghost prep = parsed@;
                parsed.push((clone_bytes(key), start));
                proof {
                    assert forall|y: int| 0 <= y < parsed@.len() implies #[trigger] parsed_model(
                        parsed@,
                    )[y] == parsed_model(prep).push((key@, start))[y] by {
                        if y < prep.len() {
                            assert(parsed@[y] == prep[y]);
                        }
                    }
                    assert(parsed_model(parsed@) =~= parsed_model(prep).push((key@, start)));
                }
            }
            i = i + 1;
        }
        proof {
            assert(smod.take(streams@.len() as int) =~= smod);
        }
        Ok((parsed, resp))
    }
}

/// Stores with equal entries read the same streams.
pub proof fn lemma_xread_same_entries(
    a: MemoryStorage,
    b: MemoryStorage,
    streams: Seq<(Seq<u8>, Seq<u8>)>,
    now: u64,
)
    requires
        a.entries@ == b.entries@,
    ensures
        spec_xread(a, streams, now) == spec_xread(b, streams, now),
    decreases streams.len(),
{
    if streams.len() > 0 {
        lemma_xread_same_entries(a, b, streams.drop_last(), now);
        let k = streams.last().0;
        assert(a.spec_get(k, now) == b.spec_get(k, now)) by {
            assert(crate::store::seq_lookup(a.entries@, k) == crate::store::seq_lookup(
                b.entries@,
                k,
            ));
        }
    }
}

/// Once a prefix fails to parse, the whole request fails.
proof fn lemma_xread_none_prefix(s: MemoryStorage, streams: Seq<(Seq<u8>, Seq<u8>)>, now: u64, i: int)
    requires
        0 <= i <= streams.len(),
        spec_xread(s, streams.take(i), now) is None,
    ensures
        spec_xread(s, streams, now) is None,
    decreases streams.len() - i,
{
    if i < streams.len() {
        assert(streams.take(i + 1).drop_last() =~= streams.take(i));
        lemma_xread_none_prefix(s, streams, now, i + 1);
    } else {
        assert(streams.take(i) =~= streams);
    }
}

} // verus!
