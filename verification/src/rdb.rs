//! The snapshot file format: length-prefixed binary records with a trailing
//! CRC64 (the variant Redis uses, polynomial 0xad93d23594c935a9 reflected).

use vstd::prelude::*;

use crate::store::{clone_bytes, MemoryStorage, RedisDataType, RedisObject, VModel};
use crate::util::{dec_repr_i, format_i64, push_i64_decimal};

verus! {

/// What the CRC64 of a byte string is. Relied on below through
/// `crc_fast::checksum`: the digest is a function of the bytes alone.
pub uninterp spec fn crc64_of(data: Seq<u8>) -> u64;

/// Relies on crc_fast::checksum with the Redis CRC64 algorithm: the digest
/// depends on the input bytes alone.
#[verifier::external_body]
pub fn crc64(data: &[u8]) -> (r: u64)
    ensures
        r == crc64_of(data@),
{
    crc_fast::checksum(crc_fast::CrcAlgorithm::Crc64Redis, data)
}

/// The size encoding: 6-bit immediate, 14-bit big-endian, or 32-bit
/// big-endian behind a flag byte.
pub open spec fn size_enc(n: int) -> Seq<u8> {
    if n <= 0x3F {
        seq![n as u8]
    } else if n <= 0x3FFF {
        seq![(0x40 + n / 256) as u8, (n % 256) as u8]
    } else {
        seq![
            0x80u8,
            ((n / 0x1000000) % 256) as u8,
            ((n / 0x10000) % 256) as u8,
            ((n / 256) % 256) as u8,
            (n % 256) as u8,
        ]
    }
}

/// A length-prefixed string.
pub open spec fn str_enc(b: Seq<u8>) -> Seq<u8> {
    size_enc(b.len() as int) + b
}

/// The `k` little-endian bytes of a value.
pub open spec fn le_bytes(v: int, k: nat) -> Seq<u8>
    decreases k,
{
    if k == 0 {
        Seq::empty()
    } else {
        seq![(v % 256) as u8] + le_bytes(v / 256, (k - 1) as nat)
    }
}

/// The integer-string encoding: an i8, i16 or i32 behind its flag, else the
/// decimal text as a plain string.
pub open spec fn string_int_enc(v: int) -> Seq<u8> {
    if -128 <= v <= 127 {
        seq![0xC0u8, (((v % 256) + 256) % 256) as u8]
    } else if -32768 <= v <= 32767 {
        seq![0xC1u8] + le_bytes(((v % 0x10000) + 0x10000) % 0x10000, 2)
    } else if -0x80000000 <= v <= 0x7FFFFFFF {
        seq![0xC2u8] + le_bytes(((v % 0x100000000) + 0x100000000) % 0x100000000, 4)
    } else {
        str_enc(dec_repr_i(v))
    }
}

/// Append the size encoding of `n`.
pub fn write_size(out: &mut Vec<u8>, n: usize) -> (r: bool)
    ensures
        r == (n <= u32::MAX),
        r ==> final(out)@ == old(out)@ + size_enc(n as int),
        !r ==> final(out)@ == old(out)@,
{
    if n <= 0x3F {
        out.push(n as u8);
        proof {
            assert(out@ =~= old(out)@ + size_enc(n as int));
        }
        true
    } else if n <= 0x3FFF {
        out.push(0x40 + (n / 256) as u8);
        out.push((n % 256) as u8);
        proof {
            assert(out@ =~= old(out)@ + size_enc(n as int));
        }
        true
    } else if n as u64 <= 0xFFFFFFFFu64 {
        out.push(0x80);
        out.push(((n / 0x1000000) % 256) as u8);
        out.push(((n / 0x10000) % 256) as u8);
        out.push(((n / 256) % 256) as u8);
        out.push((n % 256) as u8);
        proof {
            assert(out@ =~= old(out)@ + size_enc(n as int));
        }
        true
    } else {
        false
    }
}

/// Append a length-prefixed string.
pub fn write_string(out: &mut Vec<u8>, b: &Vec<u8>) -> (r: bool)
    ensures
        r == (b@.len() <= u32::MAX),
        r ==> final(out)@ == old(out)@ + str_enc(b@),
        !r ==> final(out)@ == old(out)@,
{
    if !write_size(out, b.len()) {
        return false;
    }
    let mut i: usize = 0;
    while i < b.len()
        invariant
            0 <= i <= b@.len(),
            out@ =~= old(out)@ + size_enc(b@.len() as int) + b@.take(i as int),
        decreases b@.len() - i,
    {
        out.push(b[i]);
        proof {
            assert(out@ =~= old(out)@ + size_enc(b@.len() as int) + b@.take(i as int + 1));
        }
        i = i + 1;
    }
    proof {
        assert(b@.take(b@.len() as int) =~= b@);
        assert(out@ =~= old(out)@ + str_enc(b@));
    }
    true
}

/// Append an encoded integer string.
#[verifier::rlimit(100)]
pub fn write_string_int(out: &mut Vec<u8>, v: i64)
    ensures
        final(out)@ == old(out)@ + string_int_enc(v as int),
{
    if v >= -128 && v <= 127 {
        out.push(0xC0);
        let b0: u8 = if v >= 0 {
            v as u8
        } else {
            ((v + 256) as u8)
        };
        proof {
            assert(b0 == (((v as int % 256) + 256) % 256) as u8);
        }
        out.push(b0);
        proof {
            assert(out@ =~= old(out)@ + string_int_enc(v as int));
        }
    } else if v >= -32768 && v <= 32767 {
        out.push(0xC1);
        let u: u16 = if v >= 0 {
            v as u16
        } else {
            (v + 0x10000) as u16
        };
        proof {
            assert(u as int == ((v as int % 0x10000) + 0x10000) % 0x10000);
        }
        out.push((u % 256) as u8);
        out.push((u / 256) as u8);
        proof {
            reveal_with_fuel(le_bytes, 5);
            assert(le_bytes(u as int, 2) =~= seq![(u as int % 256) as u8, (u as int / 256
                % 256) as u8]);
            assert(out@ =~= old(out)@ + string_int_enc(v as int));
        }
    } else if v >= -0x80000000 && v <= 0x7FFFFFFF {
        out.push(0xC2);
        let u: u32 = if v >= 0 {
            v as u32
        } else {
            (v + 0x100000000) as u32
        };
        proof {
            assert(u as int == ((v as int % 0x100000000) + 0x100000000) % 0x100000000);
        }
        out.push((u % 256) as u8);
        out.push(((u / 256) % 256) as u8);
        out.push(((u / 0x10000) % 256) as u8);
        out.push((u / 0x1000000) as u8);
        proof {
            reveal_with_fuel(le_bytes, 5);
            assert(le_bytes(u as int, 4) =~= seq![(u as int % 256) as u8, (u as int / 256
                % 256) as u8, (u as int / 0x10000 % 256) as u8, (u as int / 0x1000000
                % 256) as u8]);
            assert(u as int / 0x1000000 % 256 == u as int / 0x1000000);
            assert(out@ =~= old(out)@ + string_int_enc(v as int));
        }
    } else {
        let t = format_i64(v);
        proof {
            crate::util::lemma_dec_repr_u_val(if v < 0 {
                -(v as int)
            } else {
                v as int
            });
            assert(crate::util::pow10(19) == 10000000000000000000) by {
                reveal_with_fuel(crate::util::pow10, 20);
            }
            crate::util::lemma_dec_repr_u_len(
                if v < 0 {
                    -(v as int)
                } else {
                    v as int
                },
                19,
            );
        }
        let _ = write_string(out, &t);
        proof {
            assert(out@ =~= old(out)@ + string_int_enc(v as int));
        }
    }
}

/// Append eight little-endian bytes.
pub fn write_le8(out: &mut Vec<u8>, v: u64)
    ensures
        final(out)@ == old(out)@ + le_bytes(v as int, 8),
{
    let mut cur: u64 = v;
    let mut i: usize = 0;
    while i < 8
        invariant
            0 <= i <= 8,
            out@.len() == old(out)@.len() + i,
            le_bytes(v as int, 8) =~= out@.skip(old(out)@.len() as int) + le_bytes(
                cur as int,
                (8 - i) as nat,
            ),
            out@.take(old(out)@.len() as int) == old(out)@,
        decreases 8 - i,
    {
        let b = (cur % 256) as u8;
        let ghost precur = cur as int;
        out.push(b);
        cur = cur / 256;
        proof {
            assert(le_bytes(precur, (8 - i) as nat) == seq![(precur % 256) as u8] + le_bytes(
                precur / 256,
                (8 - i - 1) as nat,
            ));
            assert(out@.skip(old(out)@.len() as int) =~= out@.skip(old(out)@.len() as int));
            assert(le_bytes(v as int, 8) =~= out@.skip(old(out)@.len() as int) + le_bytes(
                cur as int,
                (8 - (i + 1)) as nat,
            ));
            assert(out@.take(old(out)@.len() as int) =~= old(out)@);
        }
        i = i + 1;
    }
    proof {
        assert(le_bytes(cur as int, 0) =~= Seq::<u8>::empty());
        assert(le_bytes(v as int, 8) =~= out@.skip(old(out)@.len() as int));
        assert(out@ =~= out@.take(old(out)@.len() as int) + out@.skip(old(out)@.len() as int));
        assert(out@ =~= old(out)@ + le_bytes(v as int, 8));
    }
}

} // verus!

verus! {

/// Concatenated length-prefixed members.
pub open spec fn strs_cat(s: Seq<Seq<u8>>) -> Seq<u8>
    decreases s.len(),
{
    if s.len() == 0 {
        Seq::empty()
    } else {
        str_enc(s[0]) + strs_cat(s.drop_first())
    }
}

/// Whether a value goes into a snapshot: strings, lists and sets do.
pub open spec fn persistable(d: RedisDataType) -> bool {
    d is String || d is List || d is SetVal
}

/// The deadline of an entry as Unix milliseconds, shifted between the
/// monotonic and the wall clock, saturating.
pub open spec fn unix_deadline(e: u64, mono_now: u64, unix_now_ms: u64) -> int {
    let remaining = if e >= mono_now {
        e - mono_now
    } else {
        0int
    };
    if unix_now_ms + remaining > u64::MAX {
        u64::MAX as int
    } else {
        unix_now_ms + remaining
    }
}

/// One snapshot entry: optional expiry prefix, type flag, key, value.
pub open spec fn entry_enc(e: (Vec<u8>, RedisObject), mono_now: u64, unix_now_ms: u64) -> Seq<
    u8,
> {
    if !persistable(e.1.data) {
        Seq::empty()
    } else {
        (match e.1.expires_at {
            Some(d) => seq![0xFCu8] + le_bytes(unix_deadline(d, mono_now, unix_now_ms), 8),
            None => Seq::empty(),
        }) + (match e.1.data {
            RedisDataType::String(b) => seq![0x00u8] + str_enc(e.0@) + str_enc(b@),
            RedisDataType::List(l) => seq![0x01u8] + str_enc(e.0@) + size_enc(l@.len() as int)
                + strs_cat(crate::store::seq_views(l@)),
            RedisDataType::SetVal(m) => seq![0x02u8] + str_enc(e.0@) + size_enc(m@.len() as int)
                + strs_cat(crate::store::seq_views(m@)),
            _ => Seq::empty(),
        })
    }
}

/// The concatenated snapshot entries, skipping what the format cannot carry.
pub open spec fn entries_enc(s: Seq<(Vec<u8>, RedisObject)>, mono_now: u64, unix_now_ms: u64) -> Seq<u8>
    decreases s.len(),
{
    if s.len() == 0 {
        Seq::empty()
    } else {
        entry_enc(s[0], mono_now, unix_now_ms) + entries_enc(s.drop_first(), mono_now, unix_now_ms)
    }
}

/// How many entries the snapshot carries, and how many of them expire.
pub open spec fn count_persistable(s: Seq<(Vec<u8>, RedisObject)>) -> int
    decreases s.len(),
{
    if s.len() == 0 {
        0
    } else {
        (if persistable(s[0].1.data) {
            1int
        } else {
            0int
        }) + count_persistable(s.drop_first())
    }
}

pub open spec fn count_expiring(s: Seq<(Vec<u8>, RedisObject)>) -> int
    decreases s.len(),
{
    if s.len() == 0 {
        0
    } else {
        (if persistable(s[0].1.data) && s[0].1.expires_at is Some {
            1int
        } else {
            0int
        }) + count_expiring(s.drop_first())
    }
}

/// The snapshot image of the live entries: header, version metadata, save
/// time, database 0 with its sizes — the written counts, so the size
/// integrity rule holds by construction — every live persistable entry, the
/// end marker, and the CRC64 of everything before it.
pub open spec fn spec_rdb_body(
    live: Seq<(Vec<u8>, RedisObject)>,
    mono_now: u64,
    unix_now_ms: u64,
    unix_now_secs: i64,
) -> Seq<u8> {
    seq![82u8, 69u8, 68u8, 73u8, 83u8, 48u8, 48u8, 49u8, 49u8] + seq![0xFAu8] + str_enc(seq![116u8, 105u8, 110u8, 105u8, 107u8, 101u8, 121u8, 118u8, 97u8, 108u8, 45u8, 118u8, 101u8, 114u8]) + str_enc(seq![48u8, 46u8, 49u8, 46u8, 48u8]) + seq![
        0xFAu8,
    ] + str_enc(seq![99u8, 116u8, 105u8, 109u8, 101u8]) + string_int_enc(unix_now_secs as int) + seq![0xFEu8] + size_enc(0)
        + seq![0xFBu8] + size_enc(count_persistable(live)) + size_enc(count_expiring(live))
        + entries_enc(live, mono_now, unix_now_ms) + seq![0xFFu8]
}

pub open spec fn spec_rdb_image(
    live: Seq<(Vec<u8>, RedisObject)>,
    mono_now: u64,
    unix_now_ms: u64,
    unix_now_secs: i64,
) -> Seq<u8> {
    spec_rdb_body(live, mono_now, unix_now_ms, unix_now_secs) + le_bytes(
        crc64_of(spec_rdb_body(live, mono_now, unix_now_ms, unix_now_secs)) as int,
        8,
    )
}

/// Every length a snapshot writes fits the 32-bit size encoding.
pub open spec fn image_sizes_ok(s: Seq<(Vec<u8>, RedisObject)>) -> bool {
    &&& s.len() <= u32::MAX
    &&& (forall|i: int|
        0 <= i < s.len() ==> (#[trigger] s[i]).0@.len() <= u32::MAX && (match s[i].1.data {
            RedisDataType::String(b) => b@.len() <= u32::MAX,
            RedisDataType::List(l) => l@.len() <= u32::MAX && (forall|j: int|
                0 <= j < l@.len() ==> (#[trigger] l@[j])@.len() <= u32::MAX),
            RedisDataType::SetVal(m) => m@.len() <= u32::MAX && (forall|j: int|
                0 <= j < m@.len() ==> (#[trigger] m@[j])@.len() <= u32::MAX),
            _ => true,
        }))
}

} // verus!

verus! {

proof fn lemma_counts_bound(s: Seq<(Vec<u8>, RedisObject)>)
    ensures
        0 <= count_persistable(s) <= s.len(),
        0 <= count_expiring(s) <= s.len(),
    decreases s.len(),
{
    if s.len() > 0 {
        lemma_counts_bound(s.drop_first());
    }
}

proof fn lemma_cons_enc(
    e: (Vec<u8>, RedisObject),
    t: Seq<(Vec<u8>, RedisObject)>,
    mono_now: u64,
    unix_now_ms: u64,
)
    ensures
        entries_enc(seq![e] + t, mono_now, unix_now_ms) == entry_enc(e, mono_now, unix_now_ms)
            + entries_enc(t, mono_now, unix_now_ms),
        count_persistable(seq![e] + t) == count_persistable(t) + (if persistable(e.1.data) {
            1int
        } else {
            0int
        }),
        count_expiring(seq![e] + t) == count_expiring(t) + (if persistable(e.1.data)
            && e.1.expires_at is Some {
            1int
        } else {
            0int
        }),
{
    let c = seq![e] + t;
    assert(c[0] == e);
    assert(c.drop_first() =~= t);
}

/// The written database sizes: how many live entries the snapshot carries
/// and how many of them expire.
#[verifier::loop_isolation(false)]
fn snapshot_sizes(s: &MemoryStorage, mono_now: u64) -> (r: (usize, usize))
    ensures
        r.0 == count_persistable(crate::store::live_filter(s.entries@, mono_now)),
        r.1 == count_expiring(crate::store::live_filter(s.entries@, mono_now)),
        r.0 <= s.entries@.len(),
        r.1 <= s.entries@.len(),
{
    let ghost sv = s.entries@;
    let ghost live = crate::store::live_filter(sv, mono_now);
    proof {
        crate::store::lemma_live_filter_len_pub(sv, mono_now);
        lemma_counts_bound(live);
    }
    let n = s.entries.len();
    let mut db_size: usize = 0;
    let mut ex_size: usize = 0;
    let mut i: usize = 0;
    proof {
        assert(sv.skip(0) =~= sv);
    }
    while i < n
        invariant
            0 <= i <= n,
            n == sv.len(),
            db_size <= i,
            ex_size <= i,
            db_size + count_persistable(crate::store::live_filter(sv.skip(i as int), mono_now))
                == count_persistable(live),
            ex_size + count_expiring(crate::store::live_filter(sv.skip(i as int), mono_now))
                == count_expiring(live),
        decreases n - i,
    {
        proof {
            assert(sv.skip(i as int).drop_first() =~= sv.skip(i as int + 1));
            assert(sv.skip(i as int)[0] == sv[i as int]);
            if crate::store::live_obj(sv[i as int].1, mono_now) {
                lemma_cons_enc(
                    sv[i as int],
                    crate::store::live_filter(sv.skip(i as int + 1), mono_now),
                    mono_now,
                    0,
                );
            }
        }
        let entry = &s.entries[i];
        if crate::store::obj_live(&entry.1, mono_now) {
            let is_persist = match &entry.1.data {
                RedisDataType::String(_) => true,
                RedisDataType::List(_) => true,
                RedisDataType::SetVal(_) => true,
                _ => false,
            };
            if is_persist {
                db_size = db_size + 1;
                if matches_some_expiry(&entry.1) {
                    ex_size = ex_size + 1;
                }
            }
        }
        i = i + 1;
    }
    proof {
        assert(sv.skip(sv.len() as int) =~= Seq::<(Vec<u8>, RedisObject)>::empty());
        assert(crate::store::live_filter(
            Seq::<(Vec<u8>, RedisObject)>::empty(),
            mono_now,
        ) =~= Seq::<(Vec<u8>, RedisObject)>::empty());
    }
    (db_size, ex_size)
}

/// Append one snapshot entry: expiry prefix, type flag, key, value.
#[verifier::rlimit(100)]
fn write_one_entry(
    out: &mut Vec<u8>,
    entry: &(Vec<u8>, RedisObject),
    mono_now: u64,
    unix_now_ms: u64,
)
    requires
        entry.0@.len() <= u32::MAX,
        match entry.1.data {
            RedisDataType::String(b) => b@.len() <= u32::MAX,
            RedisDataType::List(l) => l@.len() <= u32::MAX && (forall|j: int|
                0 <= j < l@.len() ==> (#[trigger] l@[j])@.len() <= u32::MAX),
            RedisDataType::SetVal(m) => m@.len() <= u32::MAX && (forall|j: int|
                0 <= j < m@.len() ==> (#[trigger] m@[j])@.len() <= u32::MAX),
            _ => true,
        },
    ensures
        final(out)@ == old(out)@ + entry_enc(*entry, mono_now, unix_now_ms),
{
    let is_persist = match &entry.1.data {
        RedisDataType::String(_) => true,
        RedisDataType::List(_) => true,
        RedisDataType::SetVal(_) => true,
        _ => false,
    };
    if !is_persist {
        proof {
            assert(final(out)@ =~= old(out)@ + entry_enc(*entry, mono_now, unix_now_ms));
        }
        return ;
    }
    match entry.1.expires_at {
        Some(d) => {
            out.push(0xFC);
            let remaining: u64 = if d >= mono_now {
                d - mono_now
            } else {
                0
            };
            let ud: u64 = if remaining > u64::MAX - unix_now_ms {
                u64::MAX
            } else {
                unix_now_ms + remaining
            };
            proof {
                assert(ud as int == unix_deadline(d, mono_now, unix_now_ms));
            }
            write_le8(out, ud);
        },
        None => {},
    }
    match &entry.1.data {
        RedisDataType::String(b) => {
            out.push(0x00);
            let _ = write_string(out, &entry.0);
            let _ = write_string(out, b);
        },
        RedisDataType::List(l) => {
            out.push(0x01);
            let _ = write_string(out, &entry.0);
            let okl = write_size(out, l.len());
            proof {
                assert(okl);
            }
            write_members(out, l);
        },
        RedisDataType::SetVal(m) => {
            out.push(0x02);
            let _ = write_string(out, &entry.0);
            let okm = write_size(out, m.len());
            proof {
                assert(okm);
            }
            write_members(out, m);
        },
        _ => {
            proof {
                assert(false);
            }
        },
    }
    proof {
        assert(final(out)@ =~= old(out)@ + entry_enc(*entry, mono_now, unix_now_ms));
    }
}

/// Append every live persistable entry in storage order.
#[verifier::rlimit(100)]
#[verifier::loop_isolation(false)]
fn write_entries(out: &mut Vec<u8>, s: &MemoryStorage, mono_now: u64, unix_now_ms: u64)
    requires
        image_sizes_ok(s.entries@),
    ensures
        final(out)@ == old(out)@ + entries_enc(
            crate::store::live_filter(s.entries@, mono_now),
            mono_now,
            unix_now_ms,
        ),
{
    let ghost sv = s.entries@;
    let ghost live = crate::store::live_filter(sv, mono_now);
    let n = s.entries.len();
    let mut i: usize = 0;
    proof {
        assert(sv.skip(0) =~= sv);
    }
    while i < n
        invariant
            0 <= i <= n,
            n == sv.len(),
            out@.len() >= old(out)@.len(),
            out@.take(old(out)@.len() as int) == old(out)@,
            entries_enc(live, mono_now, unix_now_ms) =~= out@.skip(old(out)@.len() as int)
                + entries_enc(
                crate::store::live_filter(sv.skip(i as int), mono_now),
                mono_now,
                unix_now_ms,
            ),
        decreases n - i,
    {
        proof {
            assert(sv.skip(i as int).drop_first() =~= sv.skip(i as int + 1));
            assert(sv.skip(i as int)[0] == sv[i as int]);
            if crate::store::live_obj(sv[i as int].1, mono_now) {
                lemma_cons_enc(
                    sv[i as int],
                    crate::store::live_filter(sv.skip(i as int + 1), mono_now),
                    mono_now,
                    unix_now_ms,
                );
            }
        }
        let entry = &s.entries[i];
        if crate::store::obj_live(&entry.1, mono_now) {
            write_one_entry(out, entry, mono_now, unix_now_ms);
        }
        proof {
            assert(out@.take(old(out)@.len() as int) =~= old(out)@);
        }
        i = i + 1;
    }
    proof {
        assert(sv.skip(sv.len() as int) =~= Seq::<(Vec<u8>, RedisObject)>::empty());
        assert(crate::store::live_filter(
            Seq::<(Vec<u8>, RedisObject)>::empty(),
            mono_now,
        ) =~= Seq::<(Vec<u8>, RedisObject)>::empty());
        assert(entries_enc(
            Seq::<(Vec<u8>, RedisObject)>::empty(),
            mono_now,
            unix_now_ms,
        ) =~= Seq::<u8>::empty());
        assert(final(out)@ =~= old(out)@ + entries_enc(live, mono_now, unix_now_ms));
    }
}

/// The snapshot image of the store's live entries.
#[verifier::rlimit(100)]
pub fn rdb_image(s: &MemoryStorage, mono_now: u64, unix_now_ms: u64, unix_now_secs: i64) -> (r:
    Vec<u8>)
    requires
        image_sizes_ok(s.entries@),
    ensures
        r@ == spec_rdb_image(
            crate::store::live_filter(s.entries@, mono_now),
            mono_now,
            unix_now_ms,
            unix_now_secs,
        ),
{
    let ghost sv = s.entries@;
    let ghost live = crate::store::live_filter(sv, mono_now);
    proof {
        lemma_live_sizes_ok(sv, mono_now);
        crate::store::lemma_live_filter_len_pub(sv, mono_now);
        lemma_counts_bound(live);
    }
    let mut out: Vec<u8> = Vec::new();
    out.push(82);
    out.push(69);
    out.push(68);
    out.push(73);
    out.push(83);
    out.push(48);
    out.push(48);
    out.push(49);
    out.push(49);
    out.push(0xFA);
    let mut vname: Vec<u8> = Vec::new();
    vname.push(116);
    vname.push(105);
    vname.push(110);
    vname.push(105);
    vname.push(107);
    vname.push(101);
    vname.push(121);
    vname.push(118);
    vname.push(97);
    vname.push(108);
    vname.push(45);
    vname.push(118);
    vname.push(101);
    vname.push(114);
    let _ = write_string(&mut out, &vname);
    let mut vval: Vec<u8> = Vec::new();
    vval.push(48);
    vval.push(46);
    vval.push(49);
    vval.push(46);
    vval.push(48);
    let _ = write_string(&mut out, &vval);
    out.push(0xFA);
    let mut ctime: Vec<u8> = Vec::new();
    ctime.push(99);
    ctime.push(116);
    ctime.push(105);
    ctime.push(109);
    ctime.push(101);
    let _ = write_string(&mut out, &ctime);
    write_string_int(&mut out, unix_now_secs);
    out.push(0xFE);
    let ok0 = write_size(&mut out, 0);
    proof {
        assert(ok0);
    }
    out.push(0xFB);
    let (db_size, ex_size) = snapshot_sizes(s, mono_now);
    let okd = write_size(&mut out, db_size);
    let oke = write_size(&mut out, ex_size);
    proof {
        assert(okd && oke);
    }
    write_entries(&mut out, s, mono_now, unix_now_ms);
    out.push(0xFF);
    proof {
        assert(out@ =~= spec_rdb_body(live, mono_now, unix_now_ms, unix_now_secs));
    }
    let sum = crc64(out.as_slice());
    write_le8(&mut out, sum);
    proof {
        assert(out@ =~= spec_rdb_image(live, mono_now, unix_now_ms, unix_now_secs));
    }
    out
}

/// Whether the entry carries an expiration.
fn matches_some_expiry(o: &RedisObject) -> (r: bool)
    ensures
        r == (o.expires_at is Some),
{
    match o.expires_at {
        Some(_) => true,
        None => false,
    }
}

/// Liveness keeps the size bounds.
proof fn lemma_live_sizes_ok(s: Seq<(Vec<u8>, RedisObject)>, now: u64)
    requires
        image_sizes_ok(s),
    ensures
        image_sizes_ok(crate::store::live_filter(s, now)),
    decreases s.len(),
{
    if s.len() > 0 {
        let d = s.drop_first();
        assert(forall|i: int| 0 <= i < d.len() ==> #[trigger] d[i] == s[i + 1]);
        assert(image_sizes_ok(d)) by {
            assert forall|i: int| 0 <= i < d.len() implies (#[trigger] d[i]).0@.len() <= u32::MAX
                && (match d[i].1.data {
                RedisDataType::String(b) => b@.len() <= u32::MAX,
                RedisDataType::List(l) => l@.len() <= u32::MAX && (forall|j: int|
                    0 <= j < l@.len() ==> (#[trigger] l@[j])@.len() <= u32::MAX),
                RedisDataType::SetVal(m) => m@.len() <= u32::MAX && (forall|j: int|
                    0 <= j < m@.len() ==> (#[trigger] m@[j])@.len() <= u32::MAX),
                _ => true,
            }) by {
                assert(d[i] == s[i + 1]);
            }
        }
        lemma_live_sizes_ok(d, now);
        crate::store::lemma_live_filter_len_pub(s, now);
        let f = crate::store::live_filter(s, now);
        let fd = crate::store::live_filter(d, now);
        assert(f.len() <= s.len());
        if !crate::store::live_obj(s[0].1, now) {
            assert(f =~= fd);
        }
        if crate::store::live_obj(s[0].1, now) {
            assert(f =~= seq![s[0]] + fd);
            assert forall|i: int| 0 <= i < f.len() implies (#[trigger] f[i]).0@.len() <= u32::MAX
                && (match f[i].1.data {
                RedisDataType::String(b) => b@.len() <= u32::MAX,
                RedisDataType::List(l) => l@.len() <= u32::MAX && (forall|j: int|
                    0 <= j < l@.len() ==> (#[trigger] l@[j])@.len() <= u32::MAX),
                RedisDataType::SetVal(m) => m@.len() <= u32::MAX && (forall|j: int|
                    0 <= j < m@.len() ==> (#[trigger] m@[j])@.len() <= u32::MAX),
                _ => true,
            }) by {
                if i == 0 {
                    assert(f[0] == s[0]);
                } else {
                    assert(f[i] == fd[i - 1]);
                }
            }
        }
    }
}

/// Append the length-prefixed members of a container.
#[verifier::loop_isolation(false)]
fn write_members(out: &mut Vec<u8>, items: &Vec<Vec<u8>>)
    requires
        forall|j: int| 0 <= j < items@.len() ==> (#[trigger] items@[j])@.len() <= u32::MAX,
    ensures
        final(out)@ == old(out)@ + strs_cat(crate::store::seq_views(items@)),
{
    broadcast use crate::store::lemma_seq_views_index;

    let ghost views = crate::store::seq_views(items@);
    let mut j: usize = 0;
    proof {
        assert(views.skip(0) =~= views);
    }
    while j < items.len()
        invariant
            0 <= j <= items@.len(),
            strs_cat(views) =~= out@.skip(old(out)@.len() as int) + strs_cat(
                views.skip(j as int),
            ),
            out@.take(old(out)@.len() as int) == old(out)@,
            out@.len() >= old(out)@.len(),
        decreases items@.len() - j,
    {
        proof {
            assert(views.skip(j as int).drop_first() =~= views.skip(j as int + 1));
            assert(views.skip(j as int)[0] == views[j as int]);
            assert(views[j as int] == items@[j as int]@);
        }
        let _ = write_string(out, &items[j]);
        proof {
            assert(out@.take(old(out)@.len() as int) =~= old(out)@);
        }
        j = j + 1;
    }
    proof {
        assert(views.skip(items@.len() as int) =~= Seq::<Seq<u8>>::empty());
        assert(strs_cat(Seq::<Seq<u8>>::empty()) =~= Seq::<u8>::empty());
        assert(final(out)@ =~= old(out)@ + strs_cat(views));
    }
}

} // verus!

verus! {

/// A value read back from a snapshot.
pub enum RdbValue {
    Str(Vec<u8>),
    List(Vec<Vec<u8>>),
    SetV(Vec<Vec<u8>>),
}

/// A parsed snapshot: version, metadata, the `(key, value, expiry)` entries
/// of database 0 (expiry in Unix milliseconds), and the trailing checksum.
pub struct RdbFile {
    pub version: Vec<u8>,
    pub metadata: Vec<(Vec<u8>, Vec<u8>)>,
    pub entries: Vec<(Vec<u8>, RdbValue, Option<u64>)>,
    pub checksum: u64,
}

/// What reading a size yields: the value and the position after it, for the
/// three size forms.
pub open spec fn spec_read_size(s: Seq<u8>, pos: int) -> Option<(int, int)> {
    if pos < 0 || pos >= s.len() {
        None
    } else {
        let b0 = s[pos];
        if b0 < 0x40 {
            Some((b0 as int, pos + 1))
        } else if b0 < 0x80 {
            if pos + 2 <= s.len() {
                Some(((b0 - 0x40) * 256 + s[pos + 1], pos + 2))
            } else {
                None
            }
        } else if b0 < 0xC0 {
            if pos + 5 <= s.len() {
                Some(
                    (
                        s[pos + 1] * 0x1000000 + s[pos + 2] * 0x10000 + s[pos + 3] * 256 + s[pos
                            + 4],
                        pos + 5,
                    ),
                )
            } else {
                None
            }
        } else {
            None
        }
    }
}

/// Read a size field.
pub fn read_size(buf: &[u8], pos: usize) -> (r: Option<(u64, usize)>)
    ensures
        match r {
            Some((n, next)) => spec_read_size(buf@, pos as int) == Some((n as int, next as int))
                && pos < next <= buf@.len(),
            None => spec_read_size(buf@, pos as int) is None,
        },
{
    if pos >= buf.len() {
        return None;
    }
    let b0 = buf[pos];
    if b0 < 0x40 {
        Some((b0 as u64, pos + 1))
    } else if b0 < 0x80 {
        if buf.len() - pos >= 2 {
            Some((((b0 - 0x40) as u64) * 256 + buf[pos + 1] as u64, pos + 2))
        } else {
            None
        }
    } else if b0 < 0xC0 {
        if buf.len() - pos >= 5 {
            Some(
                (
                    (buf[pos + 1] as u64) * 0x1000000 + (buf[pos + 2] as u64) * 0x10000 + (buf[pos
                        + 3] as u64) * 256 + buf[pos + 4] as u64,
                    pos + 5,
                ),
            )
        } else {
            None
        }
    } else {
        None
    }
}

/// The signed value of little-endian bytes of width 1, 2 or 4.
pub open spec fn signed_le(s: Seq<u8>, pos: int, width: int) -> int {
    if width == 1 {
        if s[pos] < 128 {
            s[pos] as int
        } else {
            s[pos] - 256
        }
    } else if width == 2 {
        let u = s[pos] + s[pos + 1] * 256;
        if u < 0x8000 {
            u
        } else {
            u - 0x10000
        }
    } else {
        let u = s[pos] + s[pos + 1] * 256 + s[pos + 2] * 0x10000 + s[pos + 3] * 0x1000000;
        if u < 0x80000000 {
            u
        } else {
            u - 0x100000000
        }
    }
}

/// What reading a length-encoded string yields: its bytes and the position
/// after it. The integer forms yield the decimal text of their value.
pub open spec fn spec_read_string(s: Seq<u8>, pos: int) -> Option<(Seq<u8>, int)> {
    if pos < 0 || pos >= s.len() {
        None
    } else if s[pos] < 0xC0 {
        match spec_read_size(s, pos) {
            None => None,
            Some((n, next)) => if next + n <= s.len() {
                Some((s.subrange(next, next + n), next + n))
            } else {
                None
            },
        }
    } else if s[pos] == 0xC0 {
        if pos + 2 <= s.len() {
            Some((dec_repr_i(signed_le(s, pos + 1, 1)), pos + 2))
        } else {
            None
        }
    } else if s[pos] == 0xC1 {
        if pos + 3 <= s.len() {
            Some((dec_repr_i(signed_le(s, pos + 1, 2)), pos + 3))
        } else {
            None
        }
    } else if s[pos] == 0xC2 {
        if pos + 5 <= s.len() {
            Some((dec_repr_i(signed_le(s, pos + 1, 4)), pos + 5))
        } else {
            None
        }
    } else {
        None
    }
}

/// Read a length-encoded string; the integer encodings come back as decimal
/// text. Compressed strings are not supported and are rejected.
#[verifier::loop_isolation(false)]
pub fn read_length_encoded_string(buf: &[u8], pos: usize) -> (r: Option<(Vec<u8>, usize)>)
    ensures
        match r {
            Some((v, next)) => spec_read_string(buf@, pos as int) == Some((v@, next as int))
                && pos < next <= buf@.len(),
            None => spec_read_string(buf@, pos as int) is None,
        },
{
    if pos >= buf.len() {
        return None;
    }
    let b0 = buf[pos];
    if b0 < 0xC0 {
        let (n, next) = match read_size(buf, pos) {
            None => {
                return None;
            },
            Some(x) => x,
        };
        if n > (buf.len() - next) as u64 {
            return None;
        }
        let nn = n as usize;
        let mut out: Vec<u8> = Vec::new();
        let mut i: usize = next;
        while i < next + nn
            invariant
                next <= i <= next + nn,
                next + nn <= buf@.len(),
                out@ =~= buf@.subrange(next as int, i as int),
            decreases next + nn - i,
        {
            out.push(buf[i]);
            proof {
                assert(out@ =~= buf@.subrange(next as int, i as int + 1));
            }
            i = i + 1;
        }
        Some((out, next + nn))
    } else if b0 == 0xC0 {
        if buf.len() - pos >= 2 {
            let b = buf[pos + 1];
            let v: i64 = if b < 128 {
                b as i64
            } else {
                b as i64 - 256
            };
            Some((crate::util::format_i64(v), pos + 2))
        } else {
            None
        }
    } else if b0 == 0xC1 {
        if buf.len() - pos >= 3 {
            let u: u64 = buf[pos + 1] as u64 + (buf[pos + 2] as u64) * 256;
            let v: i64 = if u < 0x8000 {
                u as i64
            } else {
                u as i64 - 0x10000
            };
            Some((crate::util::format_i64(v), pos + 3))
        } else {
            None
        }
    } else if b0 == 0xC2 {
        if buf.len() - pos >= 5 {
            let u: u64 = buf[pos + 1] as u64 + (buf[pos + 2] as u64) * 256 + (buf[pos
                + 3] as u64) * 0x10000 + (buf[pos + 4] as u64) * 0x1000000;
            let v: i64 = if u < 0x80000000 {
                u as i64
            } else {
                u as i64 - 0x100000000
            };
            Some((crate::util::format_i64(v), pos + 5))
        } else {
            None
        }
    } else {
        None
    }
}

} // verus!

verus! {

/// The value of eight little-endian bytes at `pos`.
pub open spec fn le8val(s: Seq<u8>, pos: int) -> int {
    s[pos] + s[pos + 1] * 0x100 + s[pos + 2] * 0x10000 + s[pos + 3] * 0x1000000 + s[pos + 4]
        * 0x100000000 + s[pos + 5] * 0x10000000000 + s[pos + 6] * 0x1000000000000 + s[pos + 7]
        * 0x100000000000000
}

pub open spec fn spec_bad_snapshot() -> Seq<u8> {
    seq![69u8, 82u8, 82u8, 32u8, 109u8, 97u8, 108u8, 102u8, 111u8, 114u8, 109u8, 101u8, 100u8, 32u8, 115u8, 110u8, 97u8, 112u8, 115u8, 104u8, 111u8, 116u8]
}

pub open spec fn spec_bad_checksum() -> Seq<u8> {
    seq![69u8, 82u8, 82u8, 32u8, 115u8, 110u8, 97u8, 112u8, 115u8, 104u8, 111u8, 116u8, 32u8, 99u8, 104u8, 101u8, 99u8, 107u8, 115u8, 117u8, 109u8, 32u8, 109u8, 105u8, 115u8, 109u8, 97u8, 116u8, 99u8, 104u8]
}

fn bad_snapshot() -> (r: Vec<u8>)
    ensures
        r@ == spec_bad_snapshot(),
{
    let mut v: Vec<u8> = Vec::new();
    v.push(69);
    v.push(82);
    v.push(82);
    v.push(32);
    v.push(109);
    v.push(97);
    v.push(108);
    v.push(102);
    v.push(111);
    v.push(114);
    v.push(109);
    v.push(101);
    v.push(100);
    v.push(32);
    v.push(115);
    v.push(110);
    v.push(97);
    v.push(112);
    v.push(115);
    v.push(104);
    v.push(111);
    v.push(116);
    assert(v@ =~= spec_bad_snapshot());
    v
}

fn bad_checksum() -> (r: Vec<u8>)
    ensures
        r@ == spec_bad_checksum(),
{
    let mut v: Vec<u8> = Vec::new();
    v.push(69);
    v.push(82);
    v.push(82);
    v.push(32);
    v.push(115);
    v.push(110);
    v.push(97);
    v.push(112);
    v.push(115);
    v.push(104);
    v.push(111);
    v.push(116);
    v.push(32);
    v.push(99);
    v.push(104);
    v.push(101);
    v.push(99);
    v.push(107);
    v.push(115);
    v.push(117);
    v.push(109);
    v.push(32);
    v.push(109);
    v.push(105);
    v.push(115);
    v.push(109);
    v.push(97);
    v.push(116);
    v.push(99);
    v.push(104);
    assert(v@ =~= spec_bad_checksum());
    v
}


} // verus!

verus! {

/// The model of a read-back value.
#[verifier::ext_equal]
pub enum RVModel {
    RStr(Seq<u8>),
    RList(Seq<Seq<u8>>),
    RSet(Seq<Seq<u8>>),
}

pub open spec fn rdb_value_model(v: RdbValue) -> RVModel {
    match v {
        RdbValue::Str(b) => RVModel::RStr(b@),
        RdbValue::List(l) => RVModel::RList(crate::store::seq_views(l@)),
        RdbValue::SetV(m) => RVModel::RSet(crate::store::seq_views(m@)),
    }
}

/// Whether the loader passes an entry over: it already expired at load time,
/// or its container is empty.
pub open spec fn load_skipped(v: RVModel, expiry: Option<u64>, unix_now_ms: u64) -> bool {
    (expiry matches Some(e) && unix_now_ms > e) || (v matches RVModel::RList(l) && l.len() == 0)
        || (v matches RVModel::RSet(m) && m.len() == 0)
}

/// The expiration deadline an entry gets on load: its remaining Unix time,
/// re-anchored to the monotonic clock, saturating.
pub open spec fn load_deadline(expiry: Option<u64>, unix_now_ms: u64, mono_now: u64) -> Option<
    u64,
> {
    match expiry {
        None => None,
        Some(e) => {
            let remaining = if e >= unix_now_ms {
                e - unix_now_ms
            } else {
                0int
            };
            if mono_now + remaining > u64::MAX {
                Some(u64::MAX)
            } else {
                Some((mono_now + remaining) as u64)
            }
        },
    }
}

/// The value an entry loads as: set members are deduplicated in order.
pub open spec fn load_value(v: RVModel) -> VModel {
    match v {
        RVModel::RStr(b) => VModel::MStr(b),
        RVModel::RList(l) => VModel::MList(l),
        RVModel::RSet(m) => VModel::MSet(crate::set::spec_sadd(Seq::empty(), m).0),
    }
}

/// What a key reads as after loading a run of entries, later entries
/// overwriting earlier ones and skipped entries leaving the key alone.
pub open spec fn load_lookup(
    s: Seq<(Seq<u8>, RVModel, Option<u64>)>,
    k: Seq<u8>,
    unix_now_ms: u64,
    mono_now: u64,
) -> Option<(Option<u64>, VModel)>
    decreases s.len(),
{
    if s.len() == 0 {
        None
    } else {
        let e = s.last();
        if e.0 == k && !load_skipped(e.1, e.2, unix_now_ms) {
            Some((load_deadline(e.2, unix_now_ms, mono_now), load_value(e.1)))
        } else {
            load_lookup(s.drop_last(), k, unix_now_ms, mono_now)
        }
    }
}

/// Model of the parsed entries.
pub open spec fn rdb_entries_model(s: Seq<(Vec<u8>, RdbValue, Option<u64>)>) -> Seq<
    (Seq<u8>, RVModel, Option<u64>),
> {
    Seq::new(
        s.len(),
        |i: int|
            if 0 <= i < s.len() {
                (s[i].0@, rdb_value_model(s[i].1), s[i].2)
            } else {
                (Seq::empty(), RVModel::RStr(Seq::empty()), None)
            },
    )
}

/// Load the parsed entries into a fresh store: exactly the unexpired keys,
/// with their remaining time re-anchored to the monotonic clock.
#[verifier::loop_isolation(false)]
#[verifier::rlimit(100)]
pub fn load_entries(f: RdbFile, unix_now_ms: u64, mono_now: u64) -> (r: MemoryStorage)
    ensures
        r.wf(),
        forall|k: Seq<u8>|
            #[trigger] r.spec_entry(k) == load_lookup(
                rdb_entries_model(f.entries@),
                k,
                unix_now_ms,
                mono_now,
            ),
{
    broadcast use crate::store::lemma_seq_views_index;

    let ghost em = rdb_entries_model(f.entries@);
    let mut store = MemoryStorage::new();
    let mut rest = f.entries;
    let mut i: usize = 0;
    let ghost n = em.len();
    proof {
        assert(forall|k: Seq<u8>| #[trigger] load_lookup(
            em.take(0),
            k,
            unix_now_ms,
            mono_now,
        ) is None) by {
            assert(em.take(0).len() == 0);
        }
    }
    while rest.len() > 0
        invariant
            rest@.len() <= n,
            store.wf(),
            rdb_entries_model(rest@) =~= em.skip(n - rest@.len()),
            forall|k: Seq<u8>|
                #[trigger] store.spec_entry(k) == load_lookup(
                    em.take(n - rest@.len()),
                    k,
                    unix_now_ms,
                    mono_now,
                ),
        decreases rest@.len(),
    {
        let ghost done = n - rest@.len();
        let ghost prer = rest@;
        let (key, value, expiry) = rest.remove(0);
        proof {
            assert(rdb_entries_model(prer)[0] == em[done]);
            assert(em.skip(done)[0] == em[done]);
            assert forall|x: int| 0 <= x < rest@.len() implies #[trigger] rdb_entries_model(
                rest@,
            )[x] == em.skip(done + 1)[x] by {
                assert(rest@[x] == prer[x + 1]);
                assert(rdb_entries_model(prer)[x + 1] == em.skip(done)[x + 1]);
            }
            assert(rdb_entries_model(rest@) =~= em.skip(done + 1));
            assert(em.take(done + 1).drop_last() =~= em.take(done));
            assert(em.take(done + 1).last() == em[done]);
            assert((key@, rdb_value_model(value), expiry) == em[done]);
        }
        // decide whether the entry is skipped
        let expired = match expiry {
            Some(e) => unix_now_ms > e,
            None => false,
        };
        let empty_container = match &value {
            RdbValue::Str(_) => false,
            RdbValue::List(l) => l.len() == 0,
            RdbValue::SetV(m) => m.len() == 0,
        };
        if !expired && !empty_container {
            let deadline: Option<u64> = match expiry {
                None => None,
                Some(e) => {
                    let remaining: u64 = if e >= unix_now_ms {
                        e - unix_now_ms
                    } else {
                        0
                    };
                    if remaining > u64::MAX - mono_now {
                        Some(u64::MAX)
                    } else {
                        Some(mono_now + remaining)
                    }
                },
            };
            proof {
                assert(deadline == load_deadline(expiry, unix_now_ms, mono_now));
            }
            let data = match value {
                RdbValue::Str(b) => RedisDataType::String(b),
                RdbValue::List(l) => RedisDataType::List(l),
                RdbValue::SetV(m) => {
                    let ghost mv = crate::store::seq_views(m@);
                    let mut uniq: Vec<Vec<u8>> = Vec::new();
                    let mut src = m;
                    let ghost mn = mv.len();
                    proof {
                        assert(crate::store::seq_views(uniq@) == crate::set::spec_sadd(
                            Seq::empty(),
                            mv.take(0),
                        ).0) by {
                            assert(crate::store::seq_views(uniq@) =~= Seq::<Seq<u8>>::empty());
                            assert(mv.take(0) =~= Seq::<Seq<u8>>::empty());
                        }
                    }
                    while src.len() > 0
                        invariant
                            src@.len() <= mn,
                            crate::store::seq_views(src@) =~= mv.skip(mn - src@.len()),
                            crate::store::seq_views(uniq@) == crate::set::spec_sadd(
                                Seq::empty(),
                                mv.take(mn - src@.len()),
                            ).0,
                        decreases src@.len(),
                    {
                        let ghost mdone = mn - src@.len();
                        let ghost mprer = src@;
                        let memb = src.remove(0);
                        proof {
                            assert(crate::store::seq_views(mprer)[0] == memb@);
                            assert(mv.skip(mdone)[0] == mv[mdone]);
                            assert(crate::store::seq_views(src@) =~= crate::store::seq_views(
                                mprer,
                            ).drop_first());
                            assert(crate::store::seq_views(mprer).drop_first() =~= mv.skip(
                                mdone + 1,
                            ));
                            assert(mv.take(mdone + 1).drop_last() =~= mv.take(mdone));
                            assert(mv.take(mdone + 1).last() == mv[mdone]);
                        }
                        let mut present = false;
                        let mut j: usize = 0;
                        while j < uniq.len()
                            invariant
                                0 <= j <= uniq@.len(),
                                present ==> crate::set::seq_contains(
                                    crate::store::seq_views(uniq@),
                                    memb@,
                                ),
                                !present ==> (forall|x: int|
                                    0 <= x < j ==> crate::store::seq_views(uniq@)[x] != memb@),
                            decreases uniq@.len() - j,
                        {
                            if crate::util::bytes_eq(uniq[j].as_slice(), memb.as_slice()) {
                                proof {
                                    assert(crate::store::seq_views(uniq@)[j as int] == memb@);
                                }
                                present = true;
                            }
                            j = j + 1;
                        }
                        proof {
                            if !present && crate::set::seq_contains(
                                crate::store::seq_views(uniq@),
                                memb@,
                            ) {
                                let x = choose|x: int|
                                    0 <= x < crate::store::seq_views(uniq@).len()
                                        && crate::store::seq_views(uniq@)[x] == memb@;
                                assert(false);
                            }
                        }
                        if !present {
                            let ghost preu = uniq@;
                            uniq.push(memb);
                            proof {
                                assert forall|x: int| 0 <= x < uniq@.len() implies
                                    #[trigger] crate::store::seq_views(uniq@)[x]
                                    == crate::store::seq_views(preu).push(mv[mdone])[x] by {
                                    if x < preu.len() {
                                        assert(uniq@[x] == preu[x]);
                                        assert(crate::store::seq_views(preu)[x] == preu[x]@);
                                    }
                                }
                                assert(crate::store::seq_views(uniq@)
                                    =~= crate::store::seq_views(preu).push(mv[mdone]));
                            }
                        }
                    }
                    proof {
                        assert(mv.take(mn as int) =~= mv);
                        crate::set::lemma_sadd_wf(Seq::empty(), mv);
                        assert forall|a: int, b: int|
                            0 <= a < b < uniq@.len() implies (uniq@[a])@ != (uniq@[b])@ by {
                            assert(crate::store::seq_views(uniq@)[a] == uniq@[a]@);
                            assert(crate::store::seq_views(uniq@)[b] == uniq@[b]@);
                        }
                        assert(uniq@.len() >= 1) by {
                            assert(crate::store::seq_views(uniq@).len() == uniq@.len());
                        }
                    }
                    RedisDataType::SetVal(uniq)
                },
            };
            let obj = RedisObject { expires_at: deadline, data };
            let ghost prestore = store;
            store.insert_obj(key, obj);
            proof {
                assert forall|k: Seq<u8>| true implies #[trigger] store.spec_entry(k)
                    == load_lookup(em.take(done + 1), k, unix_now_ms, mono_now) by {
                    if k == em[done].0 {
                        assert(!load_skipped(em[done].1, em[done].2, unix_now_ms));
                    }
                }
            }
        } else {
            proof {
                assert(load_skipped(em[done].1, em[done].2, unix_now_ms));
                assert forall|k: Seq<u8>| true implies #[trigger] store.spec_entry(k)
                    == load_lookup(em.take(done + 1), k, unix_now_ms, mono_now) by {}
            }
        }
    }
    proof {
        assert(em.take(n as int) =~= em);
    }
    store
}

} // verus!

verus! {

/// Metadata pairs of a snapshot, starting at `pos`: each prefixed 0xFA, two
/// length-encoded strings.
pub open spec fn spec_meta(s: Seq<u8>, pos: int) -> Option<(Seq<(Seq<u8>, Seq<u8>)>, int)>
    decreases s.len() - pos, 0int,
{
    if 0 <= pos < s.len() && s[pos] == 0xFA {
        match spec_read_string(s, pos + 1) {
            None => None,
            Some((name, p1)) => match spec_read_string(s, p1) {
                None => None,
                Some((value, p2)) => if pos < p1 && p1 < p2 && p2 <= s.len() {
                    match spec_meta(s, p2) {
                        None => None,
                        Some((rest, p3)) => Some((seq![(name, value)] + rest, p3)),
                    }
                } else {
                    None
                },
            },
        }
    } else {
        Some((Seq::empty(), pos))
    }
}

/// `count` length-encoded members.
pub open spec fn spec_members(s: Seq<u8>, pos: int, count: int) -> Option<(Seq<Seq<u8>>, int)>
    decreases s.len() - pos, count + 1,
{
    if count <= 0 {
        Some((Seq::empty(), pos))
    } else if pos < 0 || pos > s.len() {
        None
    } else {
        match spec_read_string(s, pos) {
            None => None,
            Some((m, p1)) => if pos < p1 && p1 <= s.len() {
                match spec_members(s, p1, count - 1) {
                    None => None,
                    Some((rest, p2)) => Some((seq![m] + rest, p2)),
                }
            } else {
                None
            },
        }
    }
}

/// The key entries of one database section, up to the next 0xFE/0xFF flag:
/// optional expiry prefix, type flag, key, value.
pub open spec fn spec_keys(s: Seq<u8>, pos: int) -> Option<
    (Seq<(Seq<u8>, RVModel, Option<u64>)>, int),
>
    decreases s.len() - pos, 0int,
{
    if pos < 0 || pos >= s.len() {
        None
    } else if s[pos] == 0xFE || s[pos] == 0xFF {
        Some((Seq::empty(), pos))
    } else {
        let b = s[pos];
        let ep = (if b == 0xFC {
            if s.len() - pos >= 10 {
                Some((Some(le8val(s, pos + 1)), pos + 9))
            } else {
                None
            }
        } else if b == 0xFD {
            if s.len() - pos >= 6 {
                Some(
                    (
                        Some(
                            (s[pos + 1] + s[pos + 2] * 0x100 + s[pos + 3] * 0x10000 + s[pos + 4]
                                * 0x1000000) * 1000,
                        ),
                        pos + 5,
                    ),
                )
            } else {
                None
            }
        } else {
            Some((None::<int>, pos))
        });
        match ep {
            None => None,
            Some((expiry, p1)) => if p1 >= s.len() {
                None
            } else {
                let tb = s[p1];
                match spec_read_string(s, p1 + 1) {
                    None => None,
                    Some((key, p2)) => if !(p1 < p2 && p2 <= s.len()) {
                        None
                    } else if tb == 0x00 {
                        match spec_read_string(s, p2) {
                            None => None,
                            Some((val, p3)) => if p2 < p3 && p3 <= s.len() {
                                match spec_keys(s, p3) {
                                    None => None,
                                    Some((rest, p4)) => Some(
                                        (
                                            seq![
                                                (key, RVModel::RStr(val), opt_u64(expiry)),
                                            ] + rest,
                                            p4,
                                        ),
                                    ),
                                }
                            } else {
                                None
                            },
                        }
                    } else if tb == 0x01 || tb == 0x02 {
                        match spec_read_size(s, p2) {
                            None => None,
                            Some((cnt, p3)) => if !(p2 < p3 && p3 <= s.len()) {
                                None
                            } else {
                                match spec_members(s, p3, cnt) {
                                    None => None,
                                    Some((ms, p4)) => if p3 <= p4 && p4 <= s.len() && pos < p4 {
                                        match spec_keys(s, p4) {
                                            None => None,
                                            Some((rest, p5)) => Some(
                                                (
                                                    seq![
                                                        (
                                                            key,
                                                            if tb == 0x01 {
                                                                RVModel::RList(ms)
                                                            } else {
                                                                RVModel::RSet(ms)
                                                            },
                                                            opt_u64(expiry),
                                                        ),
                                                    ] + rest,
                                                    p5,
                                                ),
                                            ),
                                        }
                                    } else {
                                        None
                                    },
                                }
                            },
                        }
                    } else {
                        None
                    },
                }
            },
        }
    }
}

/// Saturate a spec expiry value into the stored `u64`.
pub open spec fn opt_u64(v: Option<int>) -> Option<u64> {
    match v {
        None => None,
        Some(x) => if x > u64::MAX {
            Some(u64::MAX)
        } else {
            Some(x as u64)
        },
    }
}

/// The database sections: each prefixed 0xFE, its index, 0xFB, the two
/// sizes, then its key entries; the entries of every section, in order.
pub open spec fn spec_dbs(s: Seq<u8>, pos: int) -> Option<
    (Seq<(Seq<u8>, RVModel, Option<u64>)>, int),
>
    decreases s.len() - pos, 1int,
{
    if 0 <= pos < s.len() && s[pos] == 0xFE {
        match spec_read_size(s, pos + 1) {
            None => None,
            Some((_idx, p1)) => if p1 >= s.len() || s[p1] != 0xFB {
                None
            } else {
                match spec_read_size(s, p1 + 1) {
                    None => None,
                    Some((_db, p2)) => match spec_read_size(s, p2) {
                        None => None,
                        Some((_ex, p3)) => if !(pos < p3 && p3 <= s.len()) {
                            None
                        } else {
                            match spec_keys(s, p3) {
                                None => None,
                                Some((es, p4)) => if pos < p4 && p4 <= s.len() {
                                    match spec_dbs(s, p4) {
                                        None => None,
                                        Some((rest, p5)) => Some((es + rest, p5)),
                                    }
                                } else {
                                    None
                                },
                            }
                        },
                    },
                }
            },
        }
    } else {
        Some((Seq::empty(), pos))
    }
}

/// What parsing a snapshot yields: the version bytes, the metadata pairs,
/// the key entries, and the trailing checksum, which must equal the digest
/// of everything before it.
pub open spec fn spec_parse_rdb(s: Seq<u8>) -> Option<
    (Seq<u8>, Seq<(Seq<u8>, Seq<u8>)>, Seq<(Seq<u8>, RVModel, Option<u64>)>, u64),
> {
    if s.len() < 17 || s.take(5) != seq![82u8, 69u8, 68u8, 73u8, 83u8] {
        None
    } else {
        match spec_meta(s, 9) {
            None => None,
            Some((md, p1)) => match spec_dbs(s, p1) {
                None => None,
                Some((es, p2)) => if !(0 <= p2 < s.len() && s[p2] == 0xFF && s.len() - (p2 + 1)
                    == 8) {
                    None
                } else {
                    let ck = le8val(s, p2 + 1);
                    if crc64_of(s.take(s.len() - 8)) == ck {
                        Some((s.subrange(5, 9), md, es, ck as u64))
                    } else {
                        None
                    }
                },
            },
        }
    }
}

} // verus!

verus! {

/// Read the metadata pairs starting at `pos`.
#[verifier::loop_isolation(false)]
#[verifier::rlimit(100)]
fn exec_meta(buf: &[u8], start: usize) -> (r: Option<(Vec<(Vec<u8>, Vec<u8>)>, usize)>)
    requires
        start <= buf@.len(),
    ensures
        match r {
            Some((md, next)) => spec_meta(buf@, start as int) == Some(
                (crate::stream::streams_model(md@), next as int),
            ) && next <= buf@.len(),
            None => spec_meta(buf@, start as int) is None,
        },
{
    broadcast use crate::stream::lemma_streams_model_index;

    let mut metadata: Vec<(Vec<u8>, Vec<u8>)> = Vec::new();
    let mut pos = start;
    proof {
        assert(crate::stream::streams_model(metadata@) =~= Seq::<(Seq<u8>, Seq<u8>)>::empty());
        assert(Seq::<(Seq<u8>, Seq<u8>)>::empty() + (match spec_meta(buf@, pos as int) {
            Some((m2, _)) => m2,
            None => Seq::empty(),
        }) =~= (match spec_meta(buf@, pos as int) {
            Some((m2, _)) => m2,
            None => Seq::empty(),
        }));
    }
    while pos < buf.len() && buf[pos] == 0xFA
        invariant
            start <= pos <= buf@.len(),
            spec_meta(buf@, start as int) == (match spec_meta(buf@, pos as int) {
                None => None,
                Some((m2, p2)) => Some(
                    (crate::stream::streams_model(metadata@) + m2, p2),
                ),
            }),
        decreases buf@.len() - pos,
    {
        let (name, p1) = match read_length_encoded_string(buf, pos + 1) {
            None => {
                return None;
            },
            Some(x) => x,
        };
        let (value, p2) = match read_length_encoded_string(buf, p1) {
            None => {
                return None;
            },
            Some(x) => x,
        };
        let ghost prem = metadata@;
        metadata.push((name, value));
        proof {
            assert forall|x: int| 0 <= x < metadata@.len() implies
                #[trigger] crate::stream::streams_model(metadata@)[x]
                == (crate::stream::streams_model(prem).push(
                (metadata@[x].0@, metadata@[x].1@),
            ))[x] by {
                if x < prem.len() {
                    assert(metadata@[x] == prem[x]);
                }
            }
            let nm = metadata@[metadata@.len() - 1];
            assert(crate::stream::streams_model(metadata@) =~= crate::stream::streams_model(
                prem,
            ).push((nm.0@, nm.1@)));
            match spec_meta(buf@, p2 as int) {
                Some((m2, q)) => {
                    assert(crate::stream::streams_model(prem) + (seq![(nm.0@, nm.1@)] + m2)
                        =~= crate::stream::streams_model(metadata@) + m2);
                },
                None => {},
            }
        }
        pos = p2;
    }
    Some((metadata, pos))
}

/// Read `count` length-encoded members starting at `pos`.
#[verifier::loop_isolation(false)]
#[verifier::rlimit(100)]
fn exec_members(buf: &[u8], start: usize, count: u64) -> (r: Option<(Vec<Vec<u8>>, usize)>)
    requires
        start <= buf@.len(),
    ensures
        match r {
            Some((ms, next)) => spec_members(buf@, start as int, count as int) == Some(
                (crate::store::seq_views(ms@), next as int),
            ) && next <= buf@.len() && start <= next,
            None => spec_members(buf@, start as int, count as int) is None,
        },
{
    broadcast use crate::store::lemma_seq_views_index;

    let mut members: Vec<Vec<u8>> = Vec::new();
    let mut pos = start;
    let mut c: u64 = 0;
    proof {
        assert(crate::store::seq_views(members@) =~= Seq::<Seq<u8>>::empty());
        match spec_members(buf@, pos as int, count - c) {
            Some((m2, _)) => {
                assert(Seq::<Seq<u8>>::empty() + m2 =~= m2);
            },
            None => {},
        }
    }
    while c < count
        invariant
            start <= pos <= buf@.len(),
            c <= count,
            spec_members(buf@, start as int, count as int) == (match spec_members(
                buf@,
                pos as int,
                count - c,
            ) {
                None => None,
                Some((m2, p2)) => Some((crate::store::seq_views(members@) + m2, p2)),
            }),
        decreases count - c,
    {
        let (m, p1) = match read_length_encoded_string(buf, pos) {
            None => {
                return None;
            },
            Some(x) => x,
        };
        let ghost prem = members@;
        members.push(m);
        proof {
            assert forall|x: int| 0 <= x < members@.len() implies
                #[trigger] crate::store::seq_views(members@)[x] == (crate::store::seq_views(
                prem,
            ).push(members@[members@.len() - 1]@))[x] by {
                if x < prem.len() {
                    assert(members@[x] == prem[x]);
                }
            }
            let nm = members@[members@.len() - 1]@;
            assert(crate::store::seq_views(members@) =~= crate::store::seq_views(prem).push(nm));
            match spec_members(buf@, p1 as int, count - c - 1) {
                Some((m2, q)) => {
                    assert(crate::store::seq_views(prem) + (seq![nm] + m2)
                        =~= crate::store::seq_views(members@) + m2);
                },
                None => {},
            }
        }
        pos = p1;
        c = c + 1;
    }
    proof {
        match spec_members(buf@, pos as int, 0) {
            Some((m2, _)) => {
                assert(m2 =~= Seq::<Seq<u8>>::empty());
                assert(crate::store::seq_views(members@) + m2 =~= crate::store::seq_views(
                    members@,
                ));
            },
            None => {},
        }
    }
    Some((members, pos))
}

} // verus!

verus! {

/// Indexing the entries model.
pub broadcast proof fn lemma_rdb_entries_model_index(
    s: Seq<(Vec<u8>, RdbValue, Option<u64>)>,
    i: int,
)
    requires
        0 <= i < s.len(),
    ensures
        #[trigger] rdb_entries_model(s)[i] == (s[i].0@, rdb_value_model(s[i].1), s[i].2),
{
}

/// Read the key entries of one database section, stopping at the next
/// section flag or the end marker.
#[verifier::loop_isolation(false)]
#[verifier::rlimit(100)]
fn exec_keys(buf: &[u8], start: usize) -> (r: Option<
    (Vec<(Vec<u8>, RdbValue, Option<u64>)>, usize),
>)
    requires
        start <= buf@.len(),
    ensures
        match r {
            Some((es, next)) => spec_keys(buf@, start as int) == Some(
                (rdb_entries_model(es@), next as int),
            ) && next <= buf@.len() && start <= next,
            None => spec_keys(buf@, start as int) is None,
        },
{
    broadcast use lemma_rdb_entries_model_index;

    let mut entries: Vec<(Vec<u8>, RdbValue, Option<u64>)> = Vec::new();
    let mut pos = start;
    proof {
        assert(rdb_entries_model(entries@) =~= Seq::<(Seq<u8>, RVModel, Option<u64>)>::empty());
        match spec_keys(buf@, pos as int) {
            Some((m2, _)) => {
                assert(Seq::<(Seq<u8>, RVModel, Option<u64>)>::empty() + m2 =~= m2);
            },
            None => {},
        }
    }
    loop
        invariant
            start <= pos <= buf@.len(),
            spec_keys(buf@, start as int) == (match spec_keys(buf@, pos as int) {
                None => None,
                Some((m2, p2)) => Some((rdb_entries_model(entries@) + m2, p2)),
            }),
        decreases buf@.len() - pos,
    {
        if pos >= buf.len() {
            return None;
        }
        let b = buf[pos];
        if b == 0xFE || b == 0xFF {
            break ;
        }
        let ghost pos0 = pos as int;
        let mut expiry: Option<u64> = None;
        if b == 0xFC {
            if buf.len() - pos < 10 {
                return None;
            }
            let e: u64 = buf[pos + 1] as u64 + (buf[pos + 2] as u64) * 0x100 + (buf[pos
                + 3] as u64) * 0x10000 + (buf[pos + 4] as u64) * 0x1000000 + (buf[pos
                + 5] as u64) * 0x100000000 + (buf[pos + 6] as u64) * 0x10000000000 + (buf[pos
                + 7] as u64) * 0x1000000000000 + (buf[pos + 8] as u64) * 0x100000000000000;
            proof {
                assert(e as int == le8val(buf@, pos as int + 1));
            }
            expiry = Some(e);
            pos = pos + 9;
        } else if b == 0xFD {
            if buf.len() - pos < 6 {
                return None;
            }
            let secs: u64 = buf[pos + 1] as u64 + (buf[pos + 2] as u64) * 0x100 + (buf[pos
                + 3] as u64) * 0x10000 + (buf[pos + 4] as u64) * 0x1000000;
            expiry = Some(secs * 1000);
            pos = pos + 5;
        }
        if pos >= buf.len() {
            return None;
        }
        let tb = buf[pos];
        let (key, p2) = match read_length_encoded_string(buf, pos + 1) {
            None => {
                return None;
            },
            Some(x) => x,
        };
        let entry: (Vec<u8>, RdbValue, Option<u64>);
        let after: usize;
        if tb == 0x00 {
            let (val, p3) = match read_length_encoded_string(buf, p2) {
                None => {
                    return None;
                },
                Some(x) => x,
            };
            entry = (key, RdbValue::Str(val), expiry);
            after = p3;
        } else if tb == 0x01 || tb == 0x02 {
            let (cnt, p3) = match read_size(buf, p2) {
                None => {
                    return None;
                },
                Some(x) => x,
            };
            let (ms, p4) = match exec_members(buf, p3, cnt) {
                None => {
                    return None;
                },
                Some(x) => x,
            };
            if tb == 0x01 {
                entry = (key, RdbValue::List(ms), expiry);
            } else {
                entry = (key, RdbValue::SetV(ms), expiry);
            }
            after = p4;
        } else {
            return None;
        }
        let ghost pree = entries@;
        entries.push(entry);
        proof {
            assert forall|x: int| 0 <= x < entries@.len() implies #[trigger] rdb_entries_model(
                entries@,
            )[x] == (rdb_entries_model(pree).push(
                (
                    entries@[entries@.len() - 1].0@,
                    rdb_value_model(entries@[entries@.len() - 1].1),
                    entries@[entries@.len() - 1].2,
                ),
            ))[x] by {
                if x < pree.len() {
                    assert(entries@[x] == pree[x]);
                }
            }
            let ne = entries@[entries@.len() - 1];
            assert(rdb_entries_model(entries@) =~= rdb_entries_model(pree).push(
                (ne.0@, rdb_value_model(ne.1), ne.2),
            ));
            match spec_keys(buf@, after as int) {
                Some((m2, q)) => {
                    assert(rdb_entries_model(pree) + (seq![
                        (ne.0@, rdb_value_model(ne.1), ne.2),
                    ] + m2) =~= rdb_entries_model(entries@) + m2);
                },
                None => {},
            }
        }
        pos = after;
    }
    Some((entries, pos))
}

/// Read every database section in order; the entries of all of them.
#[verifier::loop_isolation(false)]
#[verifier::rlimit(100)]
fn exec_dbs(buf: &[u8], start: usize) -> (r: Option<
    (Vec<(Vec<u8>, RdbValue, Option<u64>)>, usize),
>)
    requires
        start <= buf@.len(),
    ensures
        match r {
            Some((es, next)) => spec_dbs(buf@, start as int) == Some(
                (rdb_entries_model(es@), next as int),
            ) && next <= buf@.len() && start <= next,
            None => spec_dbs(buf@, start as int) is None,
        },
{
    broadcast use lemma_rdb_entries_model_index;

    let mut entries: Vec<(Vec<u8>, RdbValue, Option<u64>)> = Vec::new();
    let mut pos = start;
    proof {
        assert(rdb_entries_model(entries@) =~= Seq::<(Seq<u8>, RVModel, Option<u64>)>::empty());
        match spec_dbs(buf@, pos as int) {
            Some((m2, _)) => {
                assert(Seq::<(Seq<u8>, RVModel, Option<u64>)>::empty() + m2 =~= m2);
            },
            None => {},
        }
    }
    while pos < buf.len() && buf[pos] == 0xFE
        invariant
            start <= pos <= buf@.len(),
            spec_dbs(buf@, start as int) == (match spec_dbs(buf@, pos as int) {
                None => None,
                Some((m2, p2)) => Some((rdb_entries_model(entries@) + m2, p2)),
            }),
        decreases buf@.len() - pos,
    {
        let (_idx, p1) = match read_size(buf, pos + 1) {
            None => {
                return None;
            },
            Some(x) => x,
        };
        if p1 >= buf.len() || buf[p1] != 0xFB {
            return None;
        }
        let (_db, p2) = match read_size(buf, p1 + 1) {
            None => {
                return None;
            },
            Some(x) => x,
        };
        let (_ex, p3) = match read_size(buf, p2) {
            None => {
                return None;
            },
            Some(x) => x,
        };
        let (mut es, p4) = match exec_keys(buf, p3) {
            None => {
                return None;
            },
            Some(x) => x,
        };
        let ghost pree = entries@;
        let ghost newe = es@;
        entries.append(&mut es);
        proof {
            assert forall|x: int| 0 <= x < entries@.len() implies #[trigger] rdb_entries_model(
                entries@,
            )[x] == (rdb_entries_model(pree) + rdb_entries_model(newe))[x] by {
                if x < pree.len() {
                    assert(entries@[x] == pree[x]);
                } else {
                    assert(entries@[x] == newe[x - pree.len()]);
                }
            }
            assert(rdb_entries_model(entries@) =~= rdb_entries_model(pree) + rdb_entries_model(
                newe,
            ));
            match spec_dbs(buf@, p4 as int) {
                Some((m2, q)) => {
                    assert(rdb_entries_model(pree) + (rdb_entries_model(newe) + m2)
                        =~= rdb_entries_model(entries@) + m2);
                },
                None => {},
            }
        }
        pos = p4;
    }
    Some((entries, pos))
}

/// Parse a snapshot: the header must read `REDIS`, every record must fit,
/// the file must end with the marker and a checksum matching the digest of
/// everything before it. Succeeds exactly where the format-level parse does,
/// and yields exactly what it describes.
#[verifier::rlimit(100)]
pub fn parse_rdb(buf: &[u8]) -> (r: Result<RdbFile, Vec<u8>>)
    ensures
        match r {
            Ok(f) => spec_parse_rdb(buf@) == Some(
                (
                    f.version@,
                    crate::stream::streams_model(f.metadata@),
                    rdb_entries_model(f.entries@),
                    f.checksum,
                ),
            ),
            Err(e) => spec_parse_rdb(buf@) is None && (e@ == spec_bad_snapshot() || e@
                == spec_bad_checksum()),
        },
{
    let n = buf.len();
    if n < 17 {
        return Err(bad_snapshot());
    }
    let head = vstd::slice::slice_subrange(buf, 0, 5);
    let mut redis: Vec<u8> = Vec::new();
    redis.push(82);
    redis.push(69);
    redis.push(68);
    redis.push(73);
    redis.push(83);
    if !crate::util::bytes_eq(head, redis.as_slice()) {
        proof {
            assert(head@ =~= buf@.take(5));
            assert(redis@ =~= seq![82u8, 69u8, 68u8, 73u8, 83u8]);
        }
        return Err(bad_snapshot());
    }
    proof {
        assert(head@ =~= buf@.take(5));
        assert(redis@ =~= seq![82u8, 69u8, 68u8, 73u8, 83u8]);
    }
    let vslice = vstd::slice::slice_subrange(buf, 5, 9);
    let version = vstd::slice::slice_to_vec(vslice);
    proof {
        assert(version@ =~= buf@.subrange(5, 9));
    }
    let (metadata, p1) = match exec_meta(buf, 9) {
        None => {
            return Err(bad_snapshot());
        },
        Some(x) => x,
    };
    let (entries, p2) = match exec_dbs(buf, p1) {
        None => {
            return Err(bad_snapshot());
        },
        Some(x) => x,
    };
    if p2 >= n || buf[p2] != 0xFF {
        return Err(bad_snapshot());
    }
    if n - (p2 + 1) != 8 {
        return Err(bad_snapshot());
    }
    let pos = p2 + 1;
    let checksum: u64 = buf[pos] as u64 + (buf[pos + 1] as u64) * 0x100 + (buf[pos
        + 2] as u64) * 0x10000 + (buf[pos + 3] as u64) * 0x1000000 + (buf[pos
        + 4] as u64) * 0x100000000 + (buf[pos + 5] as u64) * 0x10000000000 + (buf[pos
        + 6] as u64) * 0x1000000000000 + (buf[pos + 7] as u64) * 0x100000000000000;
    proof {
        assert(checksum as int == le8val(buf@, pos as int));
    }
    let prefix = vstd::slice::slice_subrange(buf, 0, pos);
    let sum = crc64(prefix);
    proof {
        assert(prefix@ =~= buf@.take(buf@.len() - 8));
    }
    if sum != checksum {
        return Err(bad_checksum());
    }
    Ok(RdbFile { version, metadata, entries, checksum })
}

} // verus!
