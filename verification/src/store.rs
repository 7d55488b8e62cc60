//! The in-memory typed key-value store: entries, expiration, and the base
//! commands over plain strings.
//!
//! A stored entry pairs an optional monotonic-clock deadline with one typed
//! value. An entry is live at `now` when it has no deadline or the deadline
//! has not passed. Every operation takes the current monotonic time in
//! milliseconds as an argument, so the store itself never reads a clock.

use vstd::prelude::*;

use crate::sorted_set::SortedSet;
use crate::stream::StreamRecord;
use crate::util::{bytes_eq, dec_repr_i, format_i64, parse_i64, spec_parse_i64};

verus! {

broadcast use vstd::seq::axiom_seq_index_decreases, vstd::seq::axiom_seq_subrange_decreases, vstd::std_specs::vec::axiom_vec_index_decreases;

/// The data of one stored entry.
pub enum RedisDataType {
    String(Vec<u8>),
    List(Vec<Vec<u8>>),
    SetVal(Vec<Vec<u8>>),
    SortedSet(SortedSet),
    Stream(Vec<StreamRecord>),
}

/// A stored entry: optional expiration deadline (monotonic milliseconds) and
/// its data.
pub struct RedisObject {
    pub expires_at: Option<u64>,
    pub data: RedisDataType,
}

/// The store: an association of keys to entries, keys unique.
pub struct MemoryStorage {
    pub entries: Vec<(Vec<u8>, RedisObject)>,
}

// ---------------------------------------------------------------------------
// The mathematical model of stored data
// ---------------------------------------------------------------------------
/// Model of one typed value: every byte string as a sequence.
#[verifier::ext_equal]
pub enum VModel {
    MStr(Seq<u8>),
    MList(Seq<Seq<u8>>),
    MSet(Seq<Seq<u8>>),
    /// Score map entries `(member, score bits, score text)` and the ordered
    /// index `(score bits, member)`.
    MZSet(Seq<(Seq<u8>, u64, Seq<u8>)>, Seq<(u64, Seq<u8>)>),
    MStream(Seq<(u64, u64, Seq<(Seq<u8>, Seq<u8>)>)>),
}

/// Views of the elements of a vector of byte strings.
pub open spec fn seq_views(s: Seq<Vec<u8>>) -> Seq<Seq<u8>> {
    Seq::new(
        s.len(),
        |i: int|
            if 0 <= i < s.len() {
                s[i]@
            } else {
                Seq::empty()
            },
    )
}

/// Indexing the views of a vector of byte strings.
pub broadcast proof fn lemma_seq_views_index(s: Seq<Vec<u8>>, i: int)
    requires
        0 <= i < s.len(),
    ensures
        #[trigger] seq_views(s)[i] == s[i]@,
{
}

pub open spec fn val_model(d: RedisDataType) -> VModel {
    match d {
        RedisDataType::String(b) => VModel::MStr(b@),
        RedisDataType::List(l) => VModel::MList(seq_views(l@)),
        RedisDataType::SetVal(s) => VModel::MSet(seq_views(s@)),
        RedisDataType::SortedSet(z) => VModel::MZSet(z.scores_model(), z.ranked_model()),
        RedisDataType::Stream(st) => VModel::MStream(crate::stream::stream_model(st@)),
    }
}

pub open spec fn obj_model(o: RedisObject) -> (Option<u64>, VModel) {
    (o.expires_at, val_model(o.data))
}

/// First entry with the given key, scanning from the front.
pub open spec fn seq_lookup(s: Seq<(Vec<u8>, RedisObject)>, k: Seq<u8>) -> Option<RedisObject>
    decreases s.len(),
{
    if s.len() == 0 {
        None
    } else if s[0].0@ == k {
        Some(s[0].1)
    } else {
        seq_lookup(s.drop_first(), k)
    }
}

pub open spec fn unique_keys(s: Seq<(Vec<u8>, RedisObject)>) -> bool {
    forall|i: int, j: int| 0 <= i < j < s.len() ==> (#[trigger] s[i]).0@ != (#[trigger] s[j]).0@
}

/// Whether an entry is live at `now`.
pub open spec fn live_obj(o: RedisObject, now: u64) -> bool {
    match o.expires_at {
        None => true,
        Some(e) => now <= e,
    }
}

pub open spec fn unique_views(s: Seq<Vec<u8>>) -> bool {
    forall|i: int, j: int| 0 <= i < j < s.len() ==> (#[trigger] s[i])@ != (#[trigger] s[j])@
}

/// Structural well-formedness of a stored value: containers are never empty,
/// set members are unique, sorted sets keep their dual index, stream ids
/// strictly increase.
pub open spec fn data_wf(d: RedisDataType) -> bool {
    match d {
        RedisDataType::String(_) => true,
        RedisDataType::List(l) => l.len() >= 1,
        RedisDataType::SetVal(s) => s.len() >= 1 && unique_views(s@),
        RedisDataType::SortedSet(z) => z.len() >= 1 && z.wf(),
        RedisDataType::Stream(st) => st.len() >= 1 && crate::stream::stream_sorted(st@),
    }
}

impl MemoryStorage {
    /// Store invariant: unique keys, every entry structurally well formed.
    pub open spec fn wf(self) -> bool {
        unique_keys(self.entries@) && (forall|i: int|
            0 <= i < self.entries@.len() ==> data_wf((#[trigger] self.entries@[i]).1.data))
    }

    /// The stored entry at a key, expired or not.
    pub open spec fn spec_entry(self, k: Seq<u8>) -> Option<(Option<u64>, VModel)> {
        match seq_lookup(self.entries@, k) {
            None => None,
            Some(o) => Some(obj_model(o)),
        }
    }

    /// The live data at a key.
    pub open spec fn spec_get(self, k: Seq<u8>, now: u64) -> Option<VModel> {
        match seq_lookup(self.entries@, k) {
            None => None,
            Some(o) => if live_obj(o, now) {
                Some(val_model(o.data))
            } else {
                None
            },
        }
    }
}

// ---------------------------------------------------------------------------
// Lemmas about lookup under the store's seq manipulations
// ---------------------------------------------------------------------------
pub proof fn lemma_lookup_none_iff(s: Seq<(Vec<u8>, RedisObject)>, k: Seq<u8>)
    ensures
        (seq_lookup(s, k) is None) <==> (forall|i: int| 0 <= i < s.len() ==> (#[trigger] s[i]).0@
            != k),
    decreases s.len(),
{
    if s.len() > 0 {
        let d = s.drop_first();
        lemma_lookup_none_iff(d, k);
        assert(forall|i: int| 0 <= i < d.len() ==> #[trigger] d[i] == s[i + 1]);
        if seq_lookup(s, k) is None {
            assert forall|i: int| 0 <= i < s.len() implies (#[trigger] s[i]).0@ != k by {
                if i > 0 {
                    assert(s[i] == d[i - 1]);
                }
            }
        } else {
            if s[0].0@ == k {
            } else {
                assert(seq_lookup(d, k) is Some);
                assert(!(forall|i: int| 0 <= i < d.len() ==> (#[trigger] d[i]).0@ != k));
                let j = choose|j: int| 0 <= j < d.len() && (#[trigger] d[j]).0@ == k;
                assert(s[j + 1].0@ == k);
            }
        }
    }
}

pub proof fn lemma_lookup_at(s: Seq<(Vec<u8>, RedisObject)>, i: int)
    requires
        unique_keys(s),
        0 <= i < s.len(),
    ensures
        seq_lookup(s, s[i].0@) == Some(s[i].1),
    decreases s.len(),
{
    if i == 0 {
    } else {
        assert(s[0].0@ != s[i].0@);
        assert(forall|a: int, b: int|
            0 <= a < b < s.len() - 1 ==> (#[trigger] s.drop_first()[a]).0@ != (
            #[trigger] s.drop_first()[b]).0@) by {
            assert(forall|a: int| 0 <= a < s.len() - 1 ==> #[trigger] s.drop_first()[a] == s[a + 1]);
        }
        lemma_lookup_at(s.drop_first(), i - 1);
    }
}

pub proof fn lemma_drop_first_unique(s: Seq<(Vec<u8>, RedisObject)>)
    requires
        unique_keys(s),
        s.len() > 0,
    ensures
        unique_keys(s.drop_first()),
{
    assert(forall|a: int| 0 <= a < s.len() - 1 ==> #[trigger] s.drop_first()[a] == s[a + 1]);
}

pub proof fn lemma_lookup_update(s: Seq<(Vec<u8>, RedisObject)>, i: int, e: (Vec<u8>, RedisObject))
    requires
        unique_keys(s),
        0 <= i < s.len(),
        e.0@ == s[i].0@,
    ensures
        unique_keys(s.update(i, e)),
        forall|k: Seq<u8>|
            #[trigger] seq_lookup(s.update(i, e), k) == if k == e.0@ {
                Some(e.1)
            } else {
                seq_lookup(s, k)
            },
    decreases s.len(),
{
    let t = s.update(i, e);
    assert(forall|a: int| 0 <= a < s.len() && a != i ==> #[trigger] t[a] == s[a]);
    assert(t[i] == e);
    assert(unique_keys(t));
    if i == 0 {
        assert(t.drop_first() =~= s.drop_first());
        assert forall|k: Seq<u8>| true implies #[trigger] seq_lookup(t, k) == (if k == e.0@ {
            Some(e.1)
        } else {
            seq_lookup(s, k)
        }) by {
            if k != e.0@ {
                assert(seq_lookup(t, k) == seq_lookup(t.drop_first(), k));
            }
        }
    } else {
        lemma_drop_first_unique(s);
        assert(t.drop_first() =~= s.drop_first().update(i - 1, e));
        lemma_lookup_update(s.drop_first(), i - 1, e);
        assert forall|k: Seq<u8>| true implies #[trigger] seq_lookup(t, k) == (if k == e.0@ {
            Some(e.1)
        } else {
            seq_lookup(s, k)
        }) by {
            assert(t[0] == s[0]);
            if k == e.0@ {
                assert(s[0].0@ != s[i].0@);
                assert(seq_lookup(t, k) == seq_lookup(t.drop_first(), k));
                assert(seq_lookup(s.drop_first().update(i - 1, e), k) == Some(e.1));
            } else {
                if k != s[0].0@ {
                    assert(seq_lookup(t, k) == seq_lookup(t.drop_first(), k));
                    assert(seq_lookup(s, k) == seq_lookup(s.drop_first(), k));
                    assert(seq_lookup(s.drop_first().update(i - 1, e), k) == seq_lookup(
                        s.drop_first(),
                        k,
                    ));
                }
            }
        }
    }
}

pub proof fn lemma_lookup_push(s: Seq<(Vec<u8>, RedisObject)>, e: (Vec<u8>, RedisObject))
    requires
        unique_keys(s),
        seq_lookup(s, e.0@) is None,
    ensures
        unique_keys(s.push(e)),
        forall|k: Seq<u8>|
            #[trigger] seq_lookup(s.push(e), k) == if k == e.0@ {
                Some(e.1)
            } else {
                seq_lookup(s, k)
            },
    decreases s.len(),
{
    lemma_lookup_none_iff(s, e.0@);
    let t = s.push(e);
    assert(forall|a: int| 0 <= a < s.len() ==> #[trigger] t[a] == s[a]);
    assert(t[s.len() as int] == e);
    assert(unique_keys(t));
    if s.len() == 0 {
        assert forall|k: Seq<u8>| true implies #[trigger] seq_lookup(t, k) == (if k == e.0@ {
            Some(e.1)
        } else {
            seq_lookup(s, k)
        }) by {
            assert(t[0] == e);
            if k != e.0@ {
                assert(t.drop_first() =~= Seq::<(Vec<u8>, RedisObject)>::empty());
                assert(seq_lookup(Seq::<(Vec<u8>, RedisObject)>::empty(), k) is None);
            }
        }
    } else {
        lemma_drop_first_unique(s);
        assert(t.drop_first() =~= s.drop_first().push(e));
        assert(seq_lookup(s, e.0@) == seq_lookup(s.drop_first(), e.0@));
        lemma_lookup_push(s.drop_first(), e);
        assert forall|k: Seq<u8>| true implies #[trigger] seq_lookup(t, k) == (if k == e.0@ {
            Some(e.1)
        } else {
            seq_lookup(s, k)
        }) by {
            assert(t[0] == s[0]);
            assert(s[0].0@ != e.0@);
            if k == s[0].0@ {
            } else {
                assert(seq_lookup(t, k) == seq_lookup(t.drop_first(), k));
                assert(seq_lookup(s, k) == seq_lookup(s.drop_first(), k));
                assert(seq_lookup(s.drop_first().push(e), k) == if k == e.0@ {
                    Some(e.1)
                } else {
                    seq_lookup(s.drop_first(), k)
                });
            }
        }
    }
}

pub proof fn lemma_lookup_remove(s: Seq<(Vec<u8>, RedisObject)>, i: int)
    requires
        unique_keys(s),
        0 <= i < s.len(),
    ensures
        unique_keys(s.remove(i)),
        forall|k: Seq<u8>|
            #[trigger] seq_lookup(s.remove(i), k) == if k == s[i].0@ {
                None
            } else {
                seq_lookup(s, k)
            },
    decreases s.len(),
{
    let t = s.remove(i);
    assert(forall|a: int| 0 <= a < i ==> #[trigger] t[a] == s[a]);
    assert(forall|a: int| i <= a < t.len() ==> #[trigger] t[a] == s[a + 1]);
    assert(unique_keys(t));
    if i == 0 {
        assert(t =~= s.drop_first());
        assert forall|k: Seq<u8>| true implies #[trigger] seq_lookup(t, k) == (if k == s[0].0@ {
            None
        } else {
            seq_lookup(s, k)
        }) by {
            if k == s[0].0@ {
                lemma_drop_first_unique(s);
                lemma_lookup_none_iff(s.drop_first(), k);
                assert(forall|a: int|
                    0 <= a < s.len() - 1 ==> #[trigger] s.drop_first()[a] == s[a + 1]);
            }
        }
    } else {
        lemma_drop_first_unique(s);
        assert(t.drop_first() =~= s.drop_first().remove(i - 1));
        lemma_lookup_remove(s.drop_first(), i - 1);
        assert(t[0] == s[0]);
        assert forall|k: Seq<u8>| true implies #[trigger] seq_lookup(t, k) == (if k == s[i].0@ {
            None
        } else {
            seq_lookup(s, k)
        }) by {
            if k == s[i].0@ {
                assert(s[0].0@ != s[i].0@);
                assert(seq_lookup(t, k) == seq_lookup(t.drop_first(), k));
            }
        }
    }
}

// ---------------------------------------------------------------------------
// Executable helpers
// ---------------------------------------------------------------------------
impl MemoryStorage {
    /// An empty store.
    pub fn new() -> (r: MemoryStorage)
        ensures
            r.wf(),
            forall|k: Seq<u8>| #[trigger] r.spec_entry(k) is None,
            r.entries@.len() == 0,
    {
        MemoryStorage { entries: Vec::new() }
    }

    /// Index of the entry holding `key`, if any.
    #[verifier::loop_isolation(false)]
    pub(crate) fn find_idx(&self, key: &Vec<u8>) -> (r: Option<usize>)
        ensures
            match r {
                Some(i) => i < self.entries@.len() && self.entries@[i as int].0@ == key@
                    && seq_lookup(self.entries@, key@) == Some(self.entries@[i as int].1),
                None => seq_lookup(self.entries@, key@) is None,
            },
    {
        let s = &self.entries;
        let mut i: usize = 0;
        proof {
            assert(s@.skip(0) =~= s@);
        }
        while i < s.len()
            invariant
                0 <= i <= s.len(),
                seq_lookup(s@, key@) == seq_lookup(s@.skip(i as int), key@),
            decreases s.len() - i,
        {
            proof {
                assert(s@.skip(i as int).drop_first() =~= s@.skip(i as int + 1));
                assert(s@.skip(i as int)[0] == s@[i as int]);
            }
            if bytes_eq(s[i].0.as_slice(), key.as_slice()) {
                return Some(i);
            }
            i = i + 1;
        }
        proof {
            assert(s@.skip(s@.len() as int).len() == 0);
        }
        None
    }

    /// Replace the object stored at entry `i`, keeping its key.
    pub(crate) fn set_obj_at(&mut self, i: usize, o: RedisObject)
        requires
            i < old(self).entries@.len(),
        ensures
            final(self).entries@ == old(self).entries@.update(
                i as int,
                (old(self).entries@[i as int].0, o),
            ),
    {
        let (k, _) = self.entries.remove(i);
        self.entries.insert(i, (k, o));
        proof {
            assert(final(self).entries@ =~= old(self).entries@.update(
                i as int,
                (old(self).entries@[i as int].0, o),
            ));
        }
    }
}

/// The deadline derived from a TTL at time `now`, saturating.
pub open spec fn spec_deadline(ttl_millis: Option<u64>, now: u64) -> Option<u64> {
    match ttl_millis {
        None => None,
        Some(t) => if now + t > u64::MAX {
            Some(u64::MAX)
        } else {
            Some((now + t) as u64)
        },
    }
}

fn deadline_of(ttl_millis: &Option<u64>, now: u64) -> (r: Option<u64>)
    ensures
        r == spec_deadline(*ttl_millis, now),
{
    match ttl_millis {
        None => None,
        Some(t) => {
            if *t > u64::MAX - now {
                Some(u64::MAX)
            } else {
                Some(now + *t)
            }
        },
    }
}

// ---------------------------------------------------------------------------
// Base commands
// ---------------------------------------------------------------------------
impl MemoryStorage {
    /// GET: the string at `key`, or nothing when the key is missing, expired,
    /// or holds a value of another type.
    pub fn get(&self, key: &Vec<u8>, now: u64) -> (r: Option<Vec<u8>>)
        ensures
            match r {
                Some(v) => self.spec_get(key@, now) == Some(VModel::MStr(v@)),
                None => !(self.spec_get(key@, now) matches Some(VModel::MStr(_))),
            },
    {
        match self.find_idx(key) {
            None => None,
            Some(i) => {
                let o = &self.entries[i].1;
                if !obj_live(o, now) {
                    return None;
                }
                match &o.data {
                    RedisDataType::String(b) => Some(clone_bytes(b)),
                    _ => None,
                }
            },
        }
    }

    /// SET: store a string, overwriting any previous entry, with an optional
    /// time to live in milliseconds.
    pub fn set(&mut self, key: Vec<u8>, val: Vec<u8>, ttl_millis: Option<u64>, now: u64)
        requires
            old(self).wf(),
        ensures
            final(self).wf(),
            final(self).spec_entry(key@) == Some(
                (spec_deadline(ttl_millis, now), VModel::MStr(val@)),
            ),
            forall|k2: Seq<u8>|
                k2 != key@ ==> #[trigger] final(self).spec_entry(k2) == old(self).spec_entry(k2),
    {
        let dl = deadline_of(&ttl_millis, now);
        let obj = RedisObject { expires_at: dl, data: RedisDataType::String(val) };
        match self.find_idx(&key) {
            Some(i) => {
                proof {
                    lemma_lookup_update(
                        self.entries@,
                        i as int,
                        (self.entries@[i as int].0, obj),
                    );
                }
                self.set_obj_at(i, obj);
            },
            None => {
                proof {
                    lemma_lookup_push(self.entries@, (key, obj));
                }
                self.entries.push((key, obj));
            },
        }
    }

    /// TYPE: the kind of the live value at `key`.
    pub fn kind(&self, key: &Vec<u8>, now: u64) -> (r: Vec<u8>)
        ensures
            r@ == spec_kind(self.spec_get(key@, now)),
    {
        match self.find_idx(key) {
            None => kind_name(5),
            Some(i) => {
                let o = &self.entries[i].1;
                if !obj_live(o, now) {
                    return kind_name(5);
                }
                match &o.data {
                    RedisDataType::String(_) => kind_name(0),
                    RedisDataType::List(_) => kind_name(1),
                    RedisDataType::SetVal(_) => kind_name(2),
                    RedisDataType::SortedSet(_) => kind_name(3),
                    RedisDataType::Stream(_) => kind_name(4),
                }
            },
        }
    }

    /// TTL: remaining whole seconds; -1 when the key has no expiration, -2
    /// when it is missing or expired.
    pub fn ttl(&self, key: &Vec<u8>, now: u64) -> (r: i64)
        ensures
            r == spec_ttl(self.spec_entry(key@), now),
    {
        match self.find_idx(key) {
            None => -2,
            Some(i) => {
                let o = &self.entries[i].1;
                if !obj_live(o, now) {
                    return -2;
                }
                match o.expires_at {
                    None => -1,
                    Some(e) => ((e - now) / 1000) as i64,
                }
            },
        }
    }

    /// DEL of one key: remove its entry, live or not; whether one was there.
    pub fn del(&mut self, key: &Vec<u8>) -> (r: bool)
        requires
            old(self).wf(),
        ensures
            final(self).wf(),
            r == (old(self).spec_entry(key@) is Some),
            final(self).spec_entry(key@) is None,
            forall|k2: Seq<u8>|
                k2 != key@ ==> #[trigger] final(self).spec_entry(k2) == old(self).spec_entry(k2),
    {
        match self.find_idx(key) {
            None => false,
            Some(i) => {
                proof {
                    lemma_lookup_remove(self.entries@, i as int);
                }
                self.entries.remove(i);
                true
            },
        }
    }

    /// FLUSHDB: drop everything.
    pub fn flush(&mut self)
        ensures
            final(self).wf(),
            final(self).entries@.len() == 0,
            forall|k: Seq<u8>| #[trigger] final(self).spec_entry(k) is None,
    {
        self.entries = Vec::new();
    }

    /// DBSIZE: the number of live entries (0 if it cannot be represented).
    #[verifier::loop_isolation(false)]
    pub fn size(&self, now: u64) -> (r: i64)
        ensures
            r == if live_filter(self.entries@, now).len() <= i64::MAX {
                live_filter(self.entries@, now).len() as int
            } else {
                0
            },
    {
        let s = &self.entries;
        let mut i: usize = 0;
        let mut count: usize = 0;
        proof {
            assert(s@.skip(0) =~= s@);
        }
        while i < s.len()
            invariant
                0 <= i <= s.len(),
                count <= i,
                count + live_filter(s@.skip(i as int), now).len() == live_filter(s@, now).len(),
            decreases s.len() - i,
        {
            proof {
                assert(s@.skip(i as int).drop_first() =~= s@.skip(i as int + 1));
                assert(s@.skip(i as int)[0] == s@[i as int]);
            }
            if obj_live(&s[i].1, now) {
                count = count + 1;
            }
            i = i + 1;
        }
        if count as u64 <= 0x7FFFFFFFFFFFFFFFu64 {
            count as i64
        } else {
            0
        }
    }

    /// KEYS: all live keys, in storage order.
    #[verifier::loop_isolation(false)]
    pub fn keys(&self, now: u64) -> (r: Vec<Vec<u8>>)
        ensures
            seq_views(r@) == keys_of(live_filter(self.entries@, now)),
    {
        let s = &self.entries;
        let mut out: Vec<Vec<u8>> = Vec::new();
        let mut i: usize = 0;
        proof {
            assert(s@.skip(0) =~= s@);
            assert(seq_views(out@) =~= Seq::<Seq<u8>>::empty());
        }
        while i < s.len()
            invariant
                0 <= i <= s.len(),
                seq_views(out@) + keys_of(live_filter(s@.skip(i as int), now)) =~= keys_of(
                    live_filter(s@, now),
                ),
            decreases s.len() - i,
        {
            proof {
                assert(s@.skip(i as int).drop_first() =~= s@.skip(i as int + 1));
                assert(s@.skip(i as int)[0] == s@[i as int]);
            }
            let live_now = obj_live(&s[i].1, now);
            proof {
                let tail = live_filter(s@.skip(i as int + 1), now);
                if live_obj(s@[i as int].1, now) {
                    assert(keys_of(seq![s@[i as int]] + tail) =~= seq![s@[i as int].0@] + keys_of(
                        tail,
                    ));
                } else {
                }
            }
            if live_now {
                out.push(clone_bytes(&s[i].0));
                proof {
                    assert(seq_views(out@) + keys_of(live_filter(s@.skip(i as int + 1), now))
                        =~= keys_of(live_filter(s@, now)));
                }
            }
            i = i + 1;
        }
        proof {
            assert(live_filter(s@.skip(s@.len() as int), now) =~= Seq::<
                (Vec<u8>, RedisObject),
            >::empty());
            assert(keys_of(Seq::<(Vec<u8>, RedisObject)>::empty()) =~= Seq::<Seq<u8>>::empty());
            assert(seq_views(out@) =~= keys_of(live_filter(s@, now)));
        }
        out
    }

    /// Sweep: remove every expired entry; how many were removed.
    #[verifier::loop_isolation(false)]
    pub fn cleanup_expired(&mut self, now: u64) -> (r: usize)
        requires
            old(self).wf(),
        ensures
            final(self).wf(),
            final(self).entries@ == live_filter(old(self).entries@, now),
            r == old(self).entries@.len() - live_filter(old(self).entries@, now).len(),
            forall|k: Seq<u8>|
                #[trigger] final(self).spec_entry(k) == match seq_lookup(old(self).entries@, k) {
                    Some(o) => if live_obj(o, now) {
                        old(self).spec_entry(k)
                    } else {
                        None::<(Option<u64>, VModel)>
                    },
                    None => None::<(Option<u64>, VModel)>,
                },
    {
        // Rebuild: walk the old entries, keep the live ones.
        let mut old_entries: Vec<(Vec<u8>, RedisObject)> = Vec::new();
        core::mem::swap(&mut old_entries, &mut self.entries);
        let mut i: usize = 0;
        let mut removed: usize = 0;
        let ghost sv = old_entries@;
        proof {
            assert(sv.skip(0) =~= sv);
            lemma_live_filter_len(sv, now);
        }
        while i < old_entries.len()
            invariant
                0 <= i <= sv.len(),
                old_entries@.len() == sv.len(),
                forall|j: int| i <= j < sv.len() ==> #[trigger] old_entries@[j] == sv[j],
                removed + self.entries@.len() == i,
                self.entries@ + live_filter(sv.skip(i as int), now) =~= live_filter(sv, now),
            decreases sv.len() - i,
        {
            proof {
                assert(sv.skip(i as int).drop_first() =~= sv.skip(i as int + 1));
                assert(sv.skip(i as int)[0] == sv[i as int]);
                lemma_live_filter_len(sv.skip(i as int + 1), now);
            }
            let live_now = obj_live(&old_entries[i].1, now);
            if live_now {
                let e = take_entry(&mut old_entries, i);
                self.entries.push(e);
                proof {
                    assert(self.entries@ + live_filter(sv.skip(i as int + 1), now) =~= live_filter(
                        sv,
                        now,
                    ));
                }
            } else {
                removed = removed + 1;
            }
            i = i + 1;
        }
        proof {
            assert(live_filter(sv.skip(sv.len() as int), now) =~= Seq::<
                (Vec<u8>, RedisObject),
            >::empty());
            assert(self.entries@ =~= live_filter(sv, now));
            lemma_live_filter_props(sv, now);
            assert forall|k: Seq<u8>| true implies #[trigger] final(self).spec_entry(k) == (
            match seq_lookup(old(self).entries@, k) {
                Some(o) => if live_obj(o, now) {
                    old(self).spec_entry(k)
                } else {
                    None::<(Option<u64>, VModel)>
                },
                None => None::<(Option<u64>, VModel)>,
            }) by {
                lemma_live_filter_lookup(sv, now, k);
            }
        }
        removed
    }
}

/// Replace entry `i` with an empty placeholder and hand the entry out.
fn take_entry(v: &mut Vec<(Vec<u8>, RedisObject)>, i: usize) -> (r: (Vec<u8>, RedisObject))
    requires
        i < old(v)@.len(),
    ensures
        r == old(v)@[i as int],
        final(v)@.len() == old(v)@.len(),
        forall|j: int| 0 <= j < old(v)@.len() && j != i ==> #[trigger] final(v)@[j] == old(v)@[j],
{
    let placeholder = (Vec::new(), RedisObject { expires_at: None, data: RedisDataType::String(Vec::new()) });
    let got = v.remove(i);
    v.insert(i, placeholder);
    got
}

/// Whether the entry is live at `now`.
pub fn obj_live(o: &RedisObject, now: u64) -> (r: bool)
    ensures
        r == live_obj(*o, now),
{
    match o.expires_at {
        None => true,
        Some(e) => now <= e,
    }
}

/// A fresh copy of a byte string.
pub fn clone_bytes(b: &Vec<u8>) -> (r: Vec<u8>)
    ensures
        r@ == b@,
{
    let mut out: Vec<u8> = Vec::new();
    let mut i: usize = 0;
    while i < b.len()
        invariant
            0 <= i <= b.len(),
            out@ =~= b@.take(i as int),
        decreases b.len() - i,
    {
        out.push(b[i]);
        proof {
            assert(out@ =~= b@.take(i as int + 1));
        }
        i = i + 1;
    }
    proof {
        assert(b@.take(b@.len() as int) =~= b@);
    }
    out
}

/// The live entries, in order.
pub open spec fn live_filter(s: Seq<(Vec<u8>, RedisObject)>, now: u64) -> Seq<
    (Vec<u8>, RedisObject),
>
    decreases s.len(),
{
    if s.len() == 0 {
        Seq::empty()
    } else if live_obj(s[0].1, now) {
        seq![s[0]] + live_filter(s.drop_first(), now)
    } else {
        live_filter(s.drop_first(), now)
    }
}

/// The keys of a run of entries, in order.
pub open spec fn keys_of(s: Seq<(Vec<u8>, RedisObject)>) -> Seq<Seq<u8>> {
    Seq::new(
        s.len(),
        |i: int|
            if 0 <= i < s.len() {
                s[i].0@
            } else {
                Seq::empty()
            },
    )
}

proof fn lemma_live_filter_len(s: Seq<(Vec<u8>, RedisObject)>, now: u64)
    ensures
        live_filter(s, now).len() <= s.len(),
    decreases s.len(),
{
    if s.len() > 0 {
        lemma_live_filter_len(s.drop_first(), now);
    }
}

/// The filtered run is never longer than the original.
pub proof fn lemma_live_filter_len_pub(s: Seq<(Vec<u8>, RedisObject)>, now: u64)
    ensures
        live_filter(s, now).len() <= s.len(),
{
    lemma_live_filter_len(s, now);
}

/// Every element of the filtered run is an element of the original run, and
/// well-formedness carries over.
proof fn lemma_live_filter_props(s: Seq<(Vec<u8>, RedisObject)>, now: u64)
    requires
        unique_keys(s),
        forall|i: int| 0 <= i < s.len() ==> data_wf((#[trigger] s[i]).1.data),
    ensures
        unique_keys(live_filter(s, now)),
        forall|i: int|
            0 <= i < live_filter(s, now).len() ==> data_wf(
                (#[trigger] live_filter(s, now)[i]).1.data,
            ),
    decreases s.len(),
{
    if s.len() > 0 {
        let d = s.drop_first();
        assert(forall|i: int| 0 <= i < d.len() ==> #[trigger] d[i] == s[i + 1]);
        lemma_drop_first_unique(s);
        lemma_live_filter_props(d, now);
        lemma_live_filter_member(d, now);
        let f = live_filter(s, now);
        let fd = live_filter(d, now);
        if live_obj(s[0].1, now) {
            assert(f =~= seq![s[0]] + fd);
            assert(forall|j: int| 0 <= j < fd.len() ==> #[trigger] f[j + 1] == fd[j]);
            assert(f[0] == s[0]);
            assert forall|a: int, b: int| 0 <= a < b < f.len() implies (#[trigger] f[a]).0@ != (
            #[trigger] f[b]).0@ by {
                if a == 0 {
                    let i0 = choose|i: int| 0 <= i < d.len() && #[trigger] d[i] == fd[b - 1];
                    assert(f[b] == fd[b - 1]);
                    assert(fd[b - 1] == s[i0 + 1]);
                    assert(s[0].0@ != s[i0 + 1].0@);
                } else {
                    assert(f[a] == fd[a - 1] && f[b] == fd[b - 1]);
                }
            }
            assert forall|i: int| 0 <= i < f.len() implies data_wf((#[trigger] f[i]).1.data) by {
                if i > 0 {
                    assert(f[i] == fd[i - 1]);
                }
            }
        }
    }
}

/// Every filtered element comes from the original run.
proof fn lemma_live_filter_member(s: Seq<(Vec<u8>, RedisObject)>, now: u64)
    ensures
        forall|j: int|
            0 <= j < live_filter(s, now).len() ==> exists|i: int|
                0 <= i < s.len() && #[trigger] s[i] == #[trigger] live_filter(s, now)[j],
    decreases s.len(),
{
    if s.len() > 0 {
        let d = s.drop_first();
        lemma_live_filter_member(d, now);
        let f = live_filter(s, now);
        let fd = live_filter(d, now);
        assert forall|j: int| 0 <= j < f.len() implies exists|i: int|
            0 <= i < s.len() && #[trigger] s[i] == #[trigger] f[j] by {
            if live_obj(s[0].1, now) {
                if j == 0 {
                    assert(f[0] == s[0]);
                } else {
                    assert(f[j] == fd[j - 1]);
                    let i0 = choose|i: int| 0 <= i < d.len() && #[trigger] d[i] == fd[j - 1];
                    assert(s[i0 + 1] == f[j]);
                }
            } else {
                assert(f[j] == fd[j]);
                let i0 = choose|i: int| 0 <= i < d.len() && #[trigger] d[i] == fd[j];
                assert(s[i0 + 1] == f[j]);
            }
        }
    }
}

/// Looking up in the filtered run: live entries stay, dead ones vanish.
proof fn lemma_live_filter_lookup(s: Seq<(Vec<u8>, RedisObject)>, now: u64, k: Seq<u8>)
    requires
        unique_keys(s),
    ensures
        seq_lookup(live_filter(s, now), k) == match seq_lookup(s, k) {
            Some(o) => if live_obj(o, now) {
                Some(o)
            } else {
                None::<RedisObject>
            },
            None => None::<RedisObject>,
        },
    decreases s.len(),
{
    if s.len() > 0 {
        let d = s.drop_first();
        lemma_drop_first_unique(s);
        lemma_live_filter_lookup(d, now, k);
        let f = live_filter(s, now);
        let fd = live_filter(d, now);
        if live_obj(s[0].1, now) {
            assert(f == seq![s[0]] + fd);
            assert(f[0] == s[0]);
            assert(f.len() > 0);
            if s[0].0@ == k {
            } else {
                assert(f.drop_first() =~= fd);
            }
        } else {
            if s[0].0@ == k {
                assert(forall|i: int| 0 <= i < d.len() ==> (#[trigger] d[i]).0@ != k) by {
                    assert(forall|i: int| 0 <= i < d.len() ==> #[trigger] d[i] == s[i + 1]);
                }
                lemma_lookup_none_iff(d, k);
            }
        }
    }
}


/// The INCR error message.
pub open spec fn spec_incr_error() -> Seq<u8> {
    seq![69u8, 82u8, 82u8, 32u8, 118u8, 97u8, 108u8, 117u8, 101u8, 32u8, 105u8, 115u8, 32u8, 110u8, 111u8, 116u8, 32u8, 97u8, 110u8, 32u8, 105u8, 110u8, 116u8, 101u8, 103u8, 101u8, 114u8, 32u8, 111u8, 114u8, 32u8, 111u8, 117u8, 116u8, 32u8, 111u8, 102u8, 32u8, 114u8, 97u8, 110u8, 103u8, 101u8]
}

fn incr_error() -> (r: Vec<u8>)
    ensures
        r@ == spec_incr_error(),
{
    let mut v: Vec<u8> = Vec::new();
    v.push(69);
    v.push(82);
    v.push(82);
    v.push(32);
    v.push(118);
    v.push(97);
    v.push(108);
    v.push(117);
    v.push(101);
    v.push(32);
    v.push(105);
    v.push(115);
    v.push(32);
    v.push(110);
    v.push(111);
    v.push(116);
    v.push(32);
    v.push(97);
    v.push(110);
    v.push(32);
    v.push(105);
    v.push(110);
    v.push(116);
    v.push(101);
    v.push(103);
    v.push(101);
    v.push(114);
    v.push(32);
    v.push(111);
    v.push(114);
    v.push(32);
    v.push(111);
    v.push(117);
    v.push(116);
    v.push(32);
    v.push(111);
    v.push(102);
    v.push(32);
    v.push(114);
    v.push(97);
    v.push(110);
    v.push(103);
    v.push(101);
    assert(v@ =~= spec_incr_error());
    v
}

/// What INCR returns when it succeeds: one more than the stored decimal, or
/// 1 when the key is missing or expired. Nothing on a non-string value, a
/// non-decimal string, or a counter already at the maximum.
pub open spec fn spec_incr_ok(s: MemoryStorage, k: Seq<u8>, now: u64) -> Option<int> {
    match s.spec_get(k, now) {
        None => Some(1),
        Some(VModel::MStr(b)) => match crate::util::spec_parse_i64(b) {
            Some(n) => if n < i64::MAX {
                Some(n + 1)
            } else {
                None
            },
            None => None,
        },
        Some(_) => None,
    }
}

impl MemoryStorage {
    /// INCR: add one to the decimal string at `key`, creating it from 0. The
    /// new value is stored without an expiration, as a fresh SET would.
    pub fn incr(&mut self, key: &Vec<u8>, now: u64) -> (r: Result<i64, Vec<u8>>)
        requires
            old(self).wf(),
        ensures
            final(self).wf(),
            match r {
                Ok(v) => spec_incr_ok(*old(self), key@, now) == Some(v as int)
                    && final(self).spec_entry(key@) == Some(
                    (None::<u64>, VModel::MStr(crate::util::dec_repr_i(v as int))),
                ),
                Err(e) => spec_incr_ok(*old(self), key@, now) is None && e@ == spec_incr_error()
                    && final(self).entries@ == old(self).entries@,
            },
            forall|k2: Seq<u8>|
                k2 != key@ ==> #[trigger] final(self).spec_entry(k2) == old(self).spec_entry(k2),
    {
        let mut base: i64 = 0;
        match self.find_idx(key) {
            None => {},
            Some(i) => {
                let o = &self.entries[i].1;
                if obj_live(o, now) {
                    match &o.data {
                        RedisDataType::String(b) => {
                            match parse_i64(b.as_slice()) {
                                Some(n) => {
                                    if n == i64::MAX {
                                        return Err(incr_error());
                                    }
                                    base = n;
                                },
                                None => {
                                    return Err(incr_error());
                                },
                            }
                        },
                        _ => {
                            return Err(incr_error());
                        },
                    }
                }
            },
        }
        let v = base + 1;
        self.set(clone_bytes(key), format_i64(v), None, now);
        Ok(v)
    }
}

impl MemoryStorage {
    /// Store an object under a key, replacing whatever was there.
    pub fn insert_obj(&mut self, key: Vec<u8>, obj: RedisObject)
        requires
            old(self).wf(),
            data_wf(obj.data),
        ensures
            final(self).wf(),
            final(self).spec_entry(key@) == Some(obj_model(obj)),
            forall|k2: Seq<u8>|
                k2 != key@ ==> #[trigger] final(self).spec_entry(k2) == old(self).spec_entry(k2),
    {
        match self.find_idx(&key) {
            Some(i) => {
                proof {
                    lemma_lookup_update(self.entries@, i as int, (self.entries@[i as int].0, obj));
                }
                self.set_obj_at(i, obj);
            },
            None => {
                proof {
                    lemma_lookup_push(self.entries@, (key, obj));
                }
                self.entries.push((key, obj));
            },
        }
    }
}

/// What the invariant gives of any live value: containers observed through
/// the model are never empty, and a sorted set's two indices agree in size.
pub proof fn lemma_spec_get_wf(s: MemoryStorage, k: Seq<u8>, now: u64)
    requires
        s.wf(),
    ensures
        match s.spec_get(k, now) {
            Some(VModel::MList(l)) => l.len() >= 1,
            Some(VModel::MSet(m)) => m.len() >= 1,
            Some(VModel::MZSet(sm, rm)) => sm.len() >= 1 && rm.len() == sm.len(),
            Some(VModel::MStream(st)) => st.len() >= 1,
            _ => true,
        },
{
    match seq_lookup(s.entries@, k) {
        None => {},
        Some(o) => {
            lemma_lookup_obj_in(s.entries@, k);
            let i = choose|i: int| 0 <= i < s.entries@.len() && (#[trigger] s.entries@[i]).1 == o;
            assert(data_wf(o.data));
        },
    }
}

/// A successful lookup lands on a stored entry.
pub proof fn lemma_lookup_obj_in(s: Seq<(Vec<u8>, RedisObject)>, k: Seq<u8>)
    ensures
        seq_lookup(s, k) matches Some(o) ==> exists|i: int|
            0 <= i < s.len() && (#[trigger] s[i]).1 == o,
    decreases s.len(),
{
    if s.len() > 0 {
        lemma_lookup_obj_in(s.drop_first(), k);
        match seq_lookup(s, k) {
            Some(o) => {
                if s[0].0@ == k {
                    assert(s[0].1 == o);
                } else {
                    let i = choose|i: int|
                        0 <= i < s.drop_first().len() && (#[trigger] s.drop_first()[i]).1 == o;
                    assert(s[i + 1].1 == o);
                }
            },
            None => {},
        }
    }
}

/// Stores with the same entries observe the same at every key.
pub proof fn lemma_same_entries_same_obs(a: MemoryStorage, b: MemoryStorage)
    requires
        a.entries@ == b.entries@,
    ensures
        forall|k: Seq<u8>| #[trigger] a.spec_entry(k) == b.spec_entry(k),
        forall|k: Seq<u8>, now: u64| #[trigger] a.spec_get(k, now) == b.spec_get(k, now),
        a.wf() == b.wf(),
{
    assert forall|k: Seq<u8>| #[trigger] a.spec_entry(k) == b.spec_entry(k) by {
        assert(seq_lookup(a.entries@, k) == seq_lookup(b.entries@, k));
    }
    assert forall|k: Seq<u8>, now: u64| #[trigger] a.spec_get(k, now) == b.spec_get(k, now) by {
        assert(seq_lookup(a.entries@, k) == seq_lookup(b.entries@, k));
    }
}

/// The TYPE names.
pub open spec fn spec_kind(v: Option<VModel>) -> Seq<u8> {
    match v {
        Some(VModel::MStr(_)) => seq![115u8, 116u8, 114u8, 105u8, 110u8, 103u8],
        Some(VModel::MList(_)) => seq![108u8, 105u8, 115u8, 116u8],
        Some(VModel::MSet(_)) => seq![115u8, 101u8, 116u8],
        Some(VModel::MZSet(_, _)) => seq![122u8, 115u8, 101u8, 116u8],
        Some(VModel::MStream(_)) => seq![115u8, 116u8, 114u8, 101u8, 97u8, 109u8],
        None => seq![110u8, 111u8, 110u8, 101u8],
    }
}

/// The byte string for a kind index: 0 string, 1 list, 2 set, 3 zset,
/// 4 stream, anything else none.
fn kind_name(which: u8) -> (r: Vec<u8>)
    ensures
        which == 0 ==> r@ == seq![115u8, 116u8, 114u8, 105u8, 110u8, 103u8],
        which == 1 ==> r@ == seq![108u8, 105u8, 115u8, 116u8],
        which == 2 ==> r@ == seq![115u8, 101u8, 116u8],
        which == 3 ==> r@ == seq![122u8, 115u8, 101u8, 116u8],
        which == 4 ==> r@ == seq![115u8, 116u8, 114u8, 101u8, 97u8, 109u8],
        which >= 5 ==> r@ == seq![110u8, 111u8, 110u8, 101u8],
{
    let mut v: Vec<u8> = Vec::new();
    if which == 0 {
        v.push(115);
        v.push(116);
        v.push(114);
        v.push(105);
        v.push(110);
        v.push(103);
        assert(v@ =~= seq![115u8, 116u8, 114u8, 105u8, 110u8, 103u8]);
    } else if which == 1 {
        v.push(108);
        v.push(105);
        v.push(115);
        v.push(116);
        assert(v@ =~= seq![108u8, 105u8, 115u8, 116u8]);
    } else if which == 2 {
        v.push(115);
        v.push(101);
        v.push(116);
        assert(v@ =~= seq![115u8, 101u8, 116u8]);
    } else if which == 3 {
        v.push(122);
        v.push(115);
        v.push(101);
        v.push(116);
        assert(v@ =~= seq![122u8, 115u8, 101u8, 116u8]);
    } else if which == 4 {
        v.push(115);
        v.push(116);
        v.push(114);
        v.push(101);
        v.push(97);
        v.push(109);
        assert(v@ =~= seq![115u8, 116u8, 114u8, 101u8, 97u8, 109u8]);
    } else {
        v.push(110);
        v.push(111);
        v.push(110);
        v.push(101);
        assert(v@ =~= seq![110u8, 111u8, 110u8, 101u8]);
    }
    v
}

/// TTL result over the model.
pub open spec fn spec_ttl(e: Option<(Option<u64>, VModel)>, now: u64) -> int {
    match e {
        None => -2,
        Some((dl, _)) => match dl {
            None => -1int,
            Some(d) => if now <= d {
                (d - now) / 1000
            } else {
                -2int
            },
        },
    }
}

} // verus!
