//! RESP wire protocol: frame model, streaming decoder and encoder.
//!
//! A frame is one of five kinds, each introduced by a tag byte and closed by
//! CRLF. The decoder consumes exactly one frame from the front of a buffer,
//! reports that more input is needed without consuming anything, or rejects
//! malformed input. The encoder is its inverse.

use vstd::prelude::*;

use crate::util::{
    dec_repr_i, dec_repr_u, find_from, lemma_dec_repr_i_no_crlf, lemma_dec_repr_u_val,
    lemma_i64_decimal_round_trip, parse_i64, push_i64_decimal, push_u64_decimal, spec_parse_i64,
};

verus! {

broadcast use vstd::seq::axiom_seq_index_decreases, vstd::seq::axiom_seq_subrange_decreases, vstd::std_specs::vec::axiom_vec_index_decreases;

/// Mathematical model of a RESP frame.
#[verifier::ext_equal]
pub enum RespV {
    Str(Seq<u8>),
    Simple(Seq<u8>),
    Error(Seq<u8>),
    Int(int),
    Arr(Seq<RespV>),
    NilArr,
    NilStr,
}

/// A parsed RESP value, or a value to be sent as a response.
pub enum RespValue {
    String(Vec<u8>),
    SimpleString(Vec<u8>),
    Error(Vec<u8>),
    Int(i64),
    Array(Vec<RespValue>),
    NilArray,
    NilString,
}

impl View for RespValue {
    type V = RespV;

    open spec fn view(&self) -> RespV
        decreases self,
    {
        match self {
            RespValue::String(b) => RespV::Str(b@),
            RespValue::SimpleString(b) => RespV::Simple(b@),
            RespValue::Error(b) => RespV::Error(b@),
            RespValue::Int(i) => RespV::Int(*i as int),
            RespValue::Array(vs) => RespV::Arr(
                Seq::new(
                    vs.len() as nat,
                    |i: int|
                        if 0 <= i < vs.len() {
                            vs[i]@
                        } else {
                            RespV::NilArr
                        },
                ),
            ),
            RespValue::NilArray => RespV::NilArr,
            RespValue::NilString => RespV::NilStr,
        }
    }
}

impl RespValue {
    /// If the value is a string, the underlying bytes.
    pub fn as_bytes(&self) -> (r: Option<&Vec<u8>>)
        ensures
            match r {
                Some(b) => (self@ matches RespV::Str(s) && s == b@) || (
                self@ matches RespV::Simple(s) && s == b@),
                None => !(self@ is Str) && !(self@ is Simple),
            },
    {
        match self {
            RespValue::String(bytes) => Some(bytes),
            RespValue::SimpleString(bytes) => Some(bytes),
            _ => None,
        }
    }

    /// If the value is a string, the owned bytes.
    pub fn into_bytes(self) -> (r: Option<Vec<u8>>)
        ensures
            match r {
                Some(b) => (self@ matches RespV::Str(s) && s == b@) || (
                self@ matches RespV::Simple(s) && s == b@),
                None => !(self@ is Str) && !(self@ is Simple),
            },
    {
        match self {
            RespValue::String(bytes) => Some(bytes),
            RespValue::SimpleString(bytes) => Some(bytes),
            _ => None,
        }
    }
}

/// The views of every element of a vector of frames.
pub open spec fn views_of(s: Seq<RespValue>) -> Seq<RespV> {
    Seq::new(
        s.len(),
        |i: int|
            if 0 <= i < s.len() {
                s[i]@
            } else {
                RespV::NilArr
            },
    )
}

/// Errors while parsing RESP frames.
#[derive(Debug, PartialEq, Eq, Structural, Clone, Copy)]
pub enum RedisParseError {
    UnknownStartingByte(u8),
    ParseInt,
    BadBulkStringSize(i64),
    BadArraySize(i64),
    InvalidLine,
}

/// The indices within a buffer (exclusive end) of a protocol word.
#[derive(Debug, PartialEq, Eq, Structural, Clone, Copy)]
pub struct BufWindow(pub usize, pub usize);

// ---------------------------------------------------------------------------
// Frame well-formedness and encoding at the model level
// ---------------------------------------------------------------------------
pub open spec fn no_crlf(s: Seq<u8>) -> bool {
    forall|i: int| 0 <= i < s.len() ==> #[trigger] s[i] != 13 && s[i] != 10
}

/// The frames the encoder can emit and the decoder gives back unchanged:
/// line payloads carry no CR or LF, and every length fits an `i64`.
pub open spec fn wf_resp(v: RespV) -> bool
    decreases v,
{
    match v {
        RespV::Str(s) => s.len() <= i64::MAX,
        RespV::Simple(s) => no_crlf(s),
        RespV::Error(s) => no_crlf(s),
        RespV::Int(i) => i64::MIN <= i <= i64::MAX,
        RespV::Arr(vs) => vs.len() <= i64::MAX && (forall|i: int|
            0 <= i < vs.len() ==> wf_resp(#[trigger] vs[i])),
        RespV::NilArr => true,
        RespV::NilStr => true,
    }
}

pub open spec fn crlf() -> Seq<u8> {
    seq![13u8, 10u8]
}

/// The wire encoding of a frame.
pub open spec fn spec_encode(v: RespV) -> Seq<u8>
    decreases v,
{
    match v {
        RespV::Simple(s) => seq![43u8] + s + crlf(),
        RespV::Error(s) => seq![45u8] + s + crlf(),
        RespV::Int(i) => seq![58u8] + dec_repr_i(i) + crlf(),
        RespV::Str(s) => seq![36u8] + dec_repr_u(s.len() as int) + crlf() + s + crlf(),
        RespV::Arr(vs) => seq![42u8] + dec_repr_u(vs.len() as int) + crlf() + spec_encode_seq(vs),
        RespV::NilArr => seq![42u8, 45u8, 49u8, 13u8, 10u8],
        RespV::NilStr => seq![36u8, 45u8, 49u8, 13u8, 10u8],
    }
}

/// The concatenated encodings of a sequence of frames.
pub open spec fn spec_encode_seq(vs: Seq<RespV>) -> Seq<u8>
    decreases vs,
{
    if vs.len() == 0 {
        Seq::empty()
    } else {
        spec_encode_seq(vs.drop_last()) + spec_encode(vs.last())
    }
}

/// Head decomposition of a sequence encoding.
pub proof fn lemma_encode_seq_first(vs: Seq<RespV>)
    requires
        vs.len() > 0,
    ensures
        spec_encode_seq(vs) == spec_encode(vs[0]) + spec_encode_seq(vs.drop_first()),
    decreases vs.len(),
{
    if vs.len() == 1 {
        assert(vs.drop_last() =~= Seq::<RespV>::empty());
        assert(vs.drop_first() =~= Seq::<RespV>::empty());
        assert(spec_encode_seq(vs) == spec_encode_seq(vs.drop_last()) + spec_encode(vs.last()));
        assert(spec_encode_seq(Seq::<RespV>::empty()) =~= Seq::<u8>::empty());
        assert(spec_encode_seq(vs) =~= spec_encode(vs[0]) + spec_encode_seq(vs.drop_first()));
    } else {
        let dl = vs.drop_last();
        lemma_encode_seq_first(dl);
        assert(dl[0] == vs[0]);
        assert(vs.drop_first().drop_last() =~= dl.drop_first());
        assert(vs.drop_first().last() == vs.last());
        assert(spec_encode_seq(vs.drop_first()) == spec_encode_seq(vs.drop_first().drop_last())
            + spec_encode(vs.drop_first().last()));
        assert(spec_encode_seq(vs) =~= spec_encode(vs[0]) + spec_encode_seq(vs.drop_first()));
    }
}

// ---------------------------------------------------------------------------
// The decoder at the model level
// ---------------------------------------------------------------------------
/// A protocol word: the bytes from `pos` up to (but not including) the byte
/// before the first LF, and the position just past the LF.
pub open spec fn spec_word(s: Seq<u8>, pos: int) -> Option<(Seq<u8>, int)> {
    match find_from(s, pos, 10) {
        None => None,
        Some(j) => if j == pos {
            None
        } else {
            Some((s.subrange(pos, j - 1), j + 1))
        },
    }
}

/// Outcome of reading an integer word.
pub enum IntStep {
    IMore,
    IBad(RedisParseError),
    IOk(int, int),
}

/// An integer word: a CRLF-terminated signed decimal. A line that starts
/// with a bare LF is malformed, not incomplete.
pub open spec fn spec_int_word(s: Seq<u8>, pos: int) -> IntStep {
    if 0 <= pos < s.len() && s[pos] == 10 {
        IntStep::IBad(RedisParseError::InvalidLine)
    } else {
        match spec_word(s, pos) {
        None => IntStep::IMore,
        Some((c, next)) => if s[next - 2] != 13 {
            IntStep::IBad(RedisParseError::InvalidLine)
        } else {
            match spec_parse_i64(c) {
                None => IntStep::IBad(RedisParseError::ParseInt),
                Some(v) => IntStep::IOk(v, next),
            }
        },
    }
    }
}

/// Outcome of parsing one frame.
pub enum ParseStep {
    More,
    Fail(RedisParseError),
    Done(RespV, int),
}

/// Outcome of parsing a run of frames.
pub enum ParseSeqStep {
    SMore,
    SFail(RedisParseError),
    SDone(Seq<RespV>, int),
}

/// A CRLF-terminated line whose payload holds no CR or LF. A line that
/// starts with a bare LF is malformed, not incomplete.
pub open spec fn spec_line(s: Seq<u8>, pos: int) -> ParseStepLine {
    if 0 <= pos < s.len() && s[pos] == 10 {
        ParseStepLine::LBad
    } else {
        match spec_word(s, pos) {
        None => ParseStepLine::LMore,
        Some((c, next)) => if s[next - 2] != 13 || !no_crlf(c) {
            ParseStepLine::LBad
        } else {
            ParseStepLine::LOk(c, next)
        },
    }
    }
}

pub enum ParseStepLine {
    LMore,
    LBad,
    LOk(Seq<u8>, int),
}

/// Parse one frame of `s` starting at `pos`.
pub open spec fn spec_parse(s: Seq<u8>, pos: int) -> ParseStep
    decreases s.len() - pos, 0int, 0int,
{
    if pos < 0 || pos >= s.len() {
        ParseStep::More
    } else if s[pos] == 43 {
        match spec_line(s, pos + 1) {
            ParseStepLine::LMore => ParseStep::More,
            ParseStepLine::LBad => ParseStep::Fail(RedisParseError::InvalidLine),
            ParseStepLine::LOk(c, next) => ParseStep::Done(RespV::Simple(c), next),
        }
    } else if s[pos] == 45 {
        match spec_line(s, pos + 1) {
            ParseStepLine::LMore => ParseStep::More,
            ParseStepLine::LBad => ParseStep::Fail(RedisParseError::InvalidLine),
            ParseStepLine::LOk(c, next) => ParseStep::Done(RespV::Error(c), next),
        }
    } else if s[pos] == 58 {
        match spec_int_word(s, pos + 1) {
            IntStep::IMore => ParseStep::More,
            IntStep::IBad(e) => ParseStep::Fail(e),
            IntStep::IOk(v, next) => ParseStep::Done(RespV::Int(v), next),
        }
    } else if s[pos] == 36 {
        spec_bulk(s, pos + 1)
    } else if s[pos] == 42 {
        spec_array(s, pos + 1)
    } else {
        ParseStep::Fail(RedisParseError::UnknownStartingByte(s[pos]))
    }
}

/// The body of a bulk string, after its `$` tag.
pub open spec fn spec_bulk(s: Seq<u8>, pos: int) -> ParseStep
    decreases s.len() - pos, 0int, 0int,
{
    match spec_int_word(s, pos) {
        IntStep::IMore => ParseStep::More,
        IntStep::IBad(e) => ParseStep::Fail(e),
        IntStep::IOk(len, next) => if len < -1 {
            ParseStep::Fail(RedisParseError::BadBulkStringSize(len as i64))
        } else if len == -1 {
            ParseStep::Done(RespV::NilStr, next)
        } else if s.len() < next + len + 2 {
            ParseStep::More
        } else if s[next + len] == 13 && s[next + len + 1] == 10 {
            ParseStep::Done(RespV::Str(s.subrange(next, next + len)), next + len + 2)
        } else {
            ParseStep::Fail(RedisParseError::InvalidLine)
        },
    }
}

/// The body of an array, after its `*` tag.
pub open spec fn spec_array(s: Seq<u8>, pos: int) -> ParseStep
    decreases s.len() - pos, 0int, 1int,
{
    match spec_int_word(s, pos) {
        IntStep::IMore => ParseStep::More,
        IntStep::IBad(e) => ParseStep::Fail(e),
        IntStep::IOk(len, next) => if len < -1 {
            ParseStep::Fail(RedisParseError::BadArraySize(len as i64))
        } else if len == -1 {
            ParseStep::Done(RespV::NilArr, next)
        } else if next <= pos || next > s.len() {
            ParseStep::Fail(RedisParseError::InvalidLine)
        } else {
            match spec_parse_elems(s, next, len) {
                ParseSeqStep::SMore => ParseStep::More,
                ParseSeqStep::SFail(e) => ParseStep::Fail(e),
                ParseSeqStep::SDone(vs, end) => ParseStep::Done(RespV::Arr(vs), end),
            }
        },
    }
}

/// Parse `n` consecutive frames starting at `pos`.
pub open spec fn spec_parse_elems(s: Seq<u8>, pos: int, n: int) -> ParseSeqStep
    decreases s.len() - pos, 1int, n + 1,
{
    if n <= 0 {
        ParseSeqStep::SDone(Seq::empty(), pos)
    } else if pos < 0 || pos > s.len() {
        ParseSeqStep::SFail(RedisParseError::InvalidLine)
    } else {
        match spec_parse(s, pos) {
            ParseStep::More => ParseSeqStep::SMore,
            ParseStep::Fail(e) => ParseSeqStep::SFail(e),
            ParseStep::Done(v, next) => if next <= pos || next > s.len() {
                ParseSeqStep::SFail(RedisParseError::InvalidLine)
            } else {
                match spec_parse_elems(s, next, n - 1) {
                    ParseSeqStep::SMore => ParseSeqStep::SMore,
                    ParseSeqStep::SFail(e) => ParseSeqStep::SFail(e),
                    ParseSeqStep::SDone(vs, end) => ParseSeqStep::SDone(seq![v] + vs, end),
                }
            },
        }
    }
}

// ---------------------------------------------------------------------------
// Properties of the model-level decoder
// ---------------------------------------------------------------------------
pub proof fn lemma_find_from_props(s: Seq<u8>, from: int, t: u8)
    ensures
        match find_from(s, from, t) {
            Some(j) => from <= j < s.len() && s[j] == t && (forall|k: int|
                from <= k < j ==> s[k] != t),
            None => from >= 0 ==> (forall|k: int| from <= k < s.len() ==> s[k] != t),
        },
    decreases s.len() - from,
{
    if from < 0 || from >= s.len() {
    } else if s[from] == t {
    } else {
        lemma_find_from_props(s, from + 1, t);
    }
}

/// Where the searched byte is known, `find_from` finds exactly it.
pub proof fn lemma_find_from_at(s: Seq<u8>, from: int, t: u8, j: int)
    requires
        0 <= from <= j < s.len(),
        s[j] == t,
        forall|k: int| from <= k < j ==> s[k] != t,
    ensures
        find_from(s, from, t) == Some(j),
    decreases j - from,
{
    if s[from] == t {
        assert(from == j);
    } else {
        lemma_find_from_at(s, from + 1, t, j);
    }
}

pub proof fn lemma_word_bounds(s: Seq<u8>, pos: int)
    requires
        0 <= pos,
    ensures
        match spec_word(s, pos) {
            Some((c, next)) => pos + 2 <= next <= s.len() + 1 && c == s.subrange(pos, next - 2) && s[
                next - 1] == 10 && next - 1 < s.len(),
            None => true,
        },
{
    lemma_find_from_props(s, pos, 10);
}

/// A word sitting exactly where a clean payload plus CRLF was placed.
pub proof fn lemma_word_at(s: Seq<u8>, pos: int, c: Seq<u8>)
    requires
        0 <= pos,
        pos + c.len() + 2 <= s.len(),
        s.subrange(pos, pos + c.len()) == c,
        no_crlf(c),
        s[pos + c.len()] == 13,
        s[pos + c.len() + 1] == 10,
    ensures
        spec_word(s, pos) == Some((c, pos + c.len() + 2)),
{
    let j = pos + c.len() + 1;
    assert forall|k: int| pos <= k < j implies s[k] != 10 by {
        if k < pos + c.len() {
            assert(s[k] == c[k - pos]);
        }
    }
    lemma_find_from_at(s, pos, 10, j);
    assert(s.subrange(pos, j - 1) =~= c);
}

/// An integer word sitting exactly where a decimal plus CRLF was placed.
pub proof fn lemma_int_word_at(s: Seq<u8>, pos: int, n: i64)
    requires
        0 <= pos,
        pos + dec_repr_i(n as int).len() + 2 <= s.len(),
        s.subrange(pos, pos + dec_repr_i(n as int).len()) == dec_repr_i(n as int),
        s[pos + dec_repr_i(n as int).len()] == 13,
        s[pos + dec_repr_i(n as int).len() + 1] == 10,
    ensures
        spec_int_word(s, pos) == IntStep::IOk(n as int, pos + dec_repr_i(n as int).len() + 2),
{
    let c = dec_repr_i(n as int);
    lemma_dec_repr_i_no_crlf(n as int);
    assert(c.len() >= 1) by {
        if n as int >= 0 {
            crate::util::lemma_dec_repr_u_val(n as int);
        }
    }
    assert(s[pos] == c[0]);
    assert(c[0] != 10);
    lemma_word_at(s, pos, c);
    lemma_i64_decimal_round_trip(n);
    assert(s[pos + c.len() + 2 - 2] == 13);
}

/// A successful parse lands strictly past its starting point and inside the
/// buffer.
pub proof fn lemma_parse_advances(s: Seq<u8>, pos: int)
    ensures
        spec_parse(s, pos) matches ParseStep::Done(_, next) ==> pos < next <= s.len(),
    decreases s.len() - pos, 0int, 0int,
{
    if pos < 0 || pos >= s.len() {
    } else {
        lemma_word_bounds(s, pos + 1);
        if s[pos] == 42 {
            match spec_int_word(s, pos + 1) {
                IntStep::IOk(len, next) => {
                    if len >= 0 && next > pos + 1 && next <= s.len() {
                        lemma_parse_elems_advances(s, next, len);
                    }
                },
                _ => {},
            }
        }
    }
}

pub proof fn lemma_parse_elems_advances(s: Seq<u8>, pos: int, n: int)
    ensures
        spec_parse_elems(s, pos, n) matches ParseSeqStep::SDone(vs, end) ==> ((n > 0 ==> pos <= end
            <= s.len() && vs.len() == n) && (n <= 0 ==> end == pos && vs.len() == 0)),
    decreases s.len() - pos, 1int, n + 1,
{
    if n <= 0 {
    } else if pos < 0 || pos > s.len() {
    } else {
        match spec_parse(s, pos) {
            ParseStep::Done(v, next) => {
                lemma_parse_advances(s, pos);
                if pos < next <= s.len() {
                    lemma_parse_elems_advances(s, next, n - 1);
                }
            },
            _ => {},
        }
    }
}

// ---------------------------------------------------------------------------
// The round trip: decoding an encoded frame gives the frame back
// ---------------------------------------------------------------------------
/// Transfer of an embedded segment: where `e` sits at `pos` in `s`, any part
/// of `e` sits at the corresponding offset in `s`.
proof fn lemma_embed(s: Seq<u8>, pos: int, e: Seq<u8>, off: int, part: Seq<u8>)
    requires
        0 <= pos,
        pos + e.len() <= s.len(),
        s.subrange(pos, pos + e.len()) == e,
        0 <= off,
        off + part.len() <= e.len(),
        e.subrange(off, off + part.len()) == part,
    ensures
        s.subrange(pos + off, pos + off + part.len()) == part,
        forall|k: int| 0 <= k < part.len() ==> s[pos + off + k] == #[trigger] part[k],
        forall|k: int| off <= k < e.len() ==> s[pos + k] == #[trigger] e[k],
{
    assert forall|k: int| 0 <= k < e.len() implies s[pos + k] == #[trigger] e[k] by {
        assert(s.subrange(pos, pos + e.len())[k] == s[pos + k]);
    }
    assert forall|k: int| 0 <= k < part.len() implies s[pos + off + k] == #[trigger] part[k] by {
        assert(e.subrange(off, off + part.len())[k] == e[off + k]);
    }
    assert(s.subrange(pos + off, pos + off + part.len()) =~= part);
}

#[verifier::rlimit(60)]
proof fn lemma_encode_parse_at(v: RespV, s: Seq<u8>, pos: int)
    requires
        wf_resp(v),
        0 <= pos,
        pos + spec_encode(v).len() <= s.len(),
        s.subrange(pos, pos + spec_encode(v).len()) == spec_encode(v),
    ensures
        spec_parse(s, pos) == ParseStep::Done(v, pos + spec_encode(v).len()),
    decreases v,
{
    let e = spec_encode(v);
    match v {
        RespV::Simple(c) => {
            assert(e.subrange(1, 1 + c.len() as int) =~= c);
            lemma_embed(s, pos, e, 1, c);
            assert(s[pos] == e[0] && e[0] == 43);
            assert(s[pos + 1] != 10) by {
                if c.len() > 0 {
                    assert(s[pos + 1] == c[0]);
                } else {
                    assert(s[pos + 1] == e[1 + c.len() as int]);
                }
            }
            assert(s[pos + 1 + c.len()] == e[1 + c.len() as int] && e[1 + c.len() as int] == 13);
            assert(s[pos + 1 + c.len() + 1] == e[2 + c.len() as int] && e[2 + c.len() as int]
                == 10);
            lemma_word_at(s, pos + 1, c);
        },
        RespV::Error(c) => {
            assert(e.subrange(1, 1 + c.len() as int) =~= c);
            lemma_embed(s, pos, e, 1, c);
            assert(s[pos] == e[0] && e[0] == 45);
            assert(s[pos + 1] != 10) by {
                if c.len() > 0 {
                    assert(s[pos + 1] == c[0]);
                } else {
                    assert(s[pos + 1] == e[1 + c.len() as int]);
                }
            }
            assert(s[pos + 1 + c.len()] == e[1 + c.len() as int] && e[1 + c.len() as int] == 13);
            assert(s[pos + 1 + c.len() + 1] == e[2 + c.len() as int] && e[2 + c.len() as int]
                == 10);
            lemma_word_at(s, pos + 1, c);
        },
        RespV::Int(i) => {
            let d = dec_repr_i(i);
            assert(e.subrange(1, 1 + d.len() as int) =~= d);
            lemma_embed(s, pos, e, 1, d);
            assert(s[pos] == e[0] && e[0] == 58);
            assert(s[pos + 1 + d.len()] == e[1 + d.len() as int] && e[1 + d.len() as int] == 13);
            assert(s[pos + 1 + d.len() + 1] == e[2 + d.len() as int] && e[2 + d.len() as int]
                == 10);
            lemma_int_word_at(s, pos + 1, i as i64);
        },
        RespV::Str(c) => {
            let d = dec_repr_u(c.len() as int);
            lemma_dec_repr_u_val(c.len() as int);
            assert(dec_repr_i(c.len() as int) == d);
            assert(e.subrange(1, 1 + d.len() as int) =~= d);
            lemma_embed(s, pos, e, 1, d);
            assert(s[pos] == e[0] && e[0] == 36);
            assert(s[pos + 1 + d.len()] == e[1 + d.len() as int] && e[1 + d.len() as int] == 13);
            assert(s[pos + 1 + d.len() + 1] == e[2 + d.len() as int] && e[2 + d.len() as int]
                == 10);
            lemma_int_word_at(s, pos + 1, c.len() as i64);
            let next = pos + 1 + d.len() + 2;
            let off = 1 + d.len() + 2;
            assert(e.subrange(off as int, off + c.len() as int) =~= c);
            lemma_embed(s, pos, e, off as int, c);
            assert(s.subrange(next, next + c.len() as int) =~= c);
            assert(s[next + c.len()] == e[off + c.len() as int] && e[off + c.len() as int] == 13);
            assert(s[next + c.len() + 1] == e[off + c.len() + 1 as int] && e[off + c.len()
                + 1 as int] == 10);
            assert(spec_int_word(s, pos + 1) == IntStep::IOk(c.len() as int, next));
            assert(spec_parse(s, pos) == ParseStep::Done(
                RespV::Str(s.subrange(next, next + c.len() as int)),
                next + c.len() + 2,
            ));
        },
        RespV::Arr(vs) => {
            let d = dec_repr_u(vs.len() as int);
            lemma_dec_repr_u_val(vs.len() as int);
            assert(dec_repr_i(vs.len() as int) == d);
            assert(e.subrange(1, 1 + d.len() as int) =~= d);
            lemma_embed(s, pos, e, 1, d);
            assert(s[pos] == e[0] && e[0] == 42);
            assert(s[pos + 1 + d.len()] == e[1 + d.len() as int] && e[1 + d.len() as int] == 13);
            assert(s[pos + 1 + d.len() + 1] == e[2 + d.len() as int] && e[2 + d.len() as int]
                == 10);
            lemma_int_word_at(s, pos + 1, vs.len() as i64);
            let next = pos + 1 + d.len() + 2;
            let off = 1 + d.len() + 2;
            let body = spec_encode_seq(vs);
            assert(e.subrange(off as int, off + body.len() as int) =~= body);
            lemma_embed(s, pos, e, off as int, body);
            lemma_encode_parse_elems_at(vs, s, next);
            assert(spec_parse_elems(s, next, vs.len() as int) == ParseSeqStep::SDone(
                vs,
                next + body.len(),
            ));
            assert(next > pos && next <= s.len());
        },
        RespV::NilArr => {
            assert(e =~= seq![42u8, 45u8, 49u8, 13u8, 10u8]);
            assert(e.subrange(1, 3) =~= seq![45u8, 49u8]);
            assert(dec_repr_u(1) =~= seq![49u8]);
            assert(dec_repr_i(-1) =~= seq![45u8, 49u8]);
            lemma_embed(s, pos, e, 1, seq![45u8, 49u8]);
            assert(s[pos] == e[0] && e[0] == 42);
            assert(s[pos + 3] == e[3] && e[3] == 13);
            assert(s[pos + 4] == e[4] && e[4] == 10);
            lemma_int_word_at(s, pos + 1, -1i64);
        },
        RespV::NilStr => {
            assert(e =~= seq![36u8, 45u8, 49u8, 13u8, 10u8]);
            assert(e.subrange(1, 3) =~= seq![45u8, 49u8]);
            assert(dec_repr_u(1) =~= seq![49u8]);
            assert(dec_repr_i(-1) =~= seq![45u8, 49u8]);
            lemma_embed(s, pos, e, 1, seq![45u8, 49u8]);
            assert(s[pos] == e[0] && e[0] == 36);
            assert(s[pos + 3] == e[3] && e[3] == 13);
            assert(s[pos + 4] == e[4] && e[4] == 10);
            lemma_int_word_at(s, pos + 1, -1i64);
        },
    }
}

proof fn lemma_encode_parse_elems_at(vs: Seq<RespV>, s: Seq<u8>, pos: int)
    requires
        forall|i: int| 0 <= i < vs.len() ==> wf_resp(#[trigger] vs[i]),
        0 <= pos,
        pos + spec_encode_seq(vs).len() <= s.len(),
        s.subrange(pos, pos + spec_encode_seq(vs).len()) == spec_encode_seq(vs),
    ensures
        spec_parse_elems(s, pos, vs.len() as int) == ParseSeqStep::SDone(
            vs,
            pos + spec_encode_seq(vs).len(),
        ),
    decreases vs,
{
    if vs.len() == 0 {
        assert(spec_parse_elems(s, pos, 0) == ParseSeqStep::SDone(Seq::<RespV>::empty(), pos));
        assert(vs =~= Seq::<RespV>::empty());
    } else {
        lemma_encode_seq_first(vs);
        let e0 = spec_encode(vs[0]);
        let erest = spec_encode_seq(vs.drop_first());
        let e = spec_encode_seq(vs);
        assert(e == e0 + erest);
        assert(e.subrange(0, e0.len() as int) =~= e0);
        lemma_embed(s, pos, e, 0, e0);
        lemma_encode_parse_at(vs[0], s, pos);
        let next = pos + e0.len();
        assert(e.subrange(e0.len() as int, e0.len() + erest.len() as int) =~= erest);
        lemma_embed(s, pos, e, e0.len() as int, erest);
        lemma_encode_parse_elems_at(vs.drop_first(), s, next);
        assert(spec_parse(s, pos) == ParseStep::Done(vs[0], next));
        assert(spec_parse_elems(s, next, vs.len() - 1) == ParseSeqStep::SDone(
            vs.drop_first(),
            next + erest.len(),
        ));
        assert(seq![vs[0]] + vs.drop_first() =~= vs);
    }
}

/// The round trip: decoding the encoding of any well-formed frame, with any
/// bytes following it, yields exactly that frame and consumes exactly its
/// encoding.
pub proof fn lemma_resp_round_trip(v: RespV, rest: Seq<u8>)
    requires
        wf_resp(v),
    ensures
        spec_parse(spec_encode(v) + rest, 0) == ParseStep::Done(v, spec_encode(v).len() as int),
{
    let s = spec_encode(v) + rest;
    assert(s.subrange(0, spec_encode(v).len() as int) =~= spec_encode(v));
    lemma_encode_parse_at(v, s, 0);
}

// ---------------------------------------------------------------------------
// Executable decoder
// ---------------------------------------------------------------------------
/// Try to get a RESP word from `buf` starting at index `pos`. If found, return
/// the indices of the word and the next index to search from.
pub fn word(buf: &Vec<u8>, pos: usize) -> (r: Option<(BufWindow, usize)>)
    ensures
        match spec_word(buf@, pos as int) {
            None => r is None,
            Some((c, next)) => r matches Some((w, nx)) && w.0 == pos && w.1 == pos + c.len() && nx
                == next && buf@.subrange(w.0 as int, w.1 as int) == c && nx <= buf.len() + 1 && w.1
                < buf.len(),
        },
{
    proof {
        lemma_find_from_props(buf@, pos as int, 10);
    }
    if buf.len() <= pos {
        return None;
    }
    match crate::util::find_byte(buf.as_slice(), pos, 10) {
        Some(j) => {
            if j == pos {
                None
            } else {
                Some((BufWindow(pos, j - 1), j + 1))
            }
        },
        None => None,
    }
}

/// Copy of a byte range of the buffer.
fn copy_range(buf: &Vec<u8>, a: usize, b: usize) -> (r: Vec<u8>)
    requires
        a <= b <= buf.len(),
    ensures
        r@ == buf@.subrange(a as int, b as int),
{
    let mut out: Vec<u8> = Vec::new();
    let mut i: usize = a;
    while i < b
        invariant
            a <= i <= b <= buf.len(),
            out@ =~= buf@.subrange(a as int, i as int),
        decreases b - i,
    {
        out.push(buf[i]);
        proof {
            assert(out@ =~= buf@.subrange(a as int, i as int + 1));
        }
        i = i + 1;
    }
    out
}

/// Read a CRLF-terminated line at `pos`, rejecting embedded CR or LF.
#[verifier::loop_isolation(false)]
fn line(buf: &Vec<u8>, pos: usize) -> (r: Result<Option<(Vec<u8>, usize)>, RedisParseError>)
    ensures
        match spec_line(buf@, pos as int) {
            ParseStepLine::LMore => r matches Ok(None),
            ParseStepLine::LBad => r matches Err(e) && e == RedisParseError::InvalidLine,
            ParseStepLine::LOk(c, next) => r matches Ok(Some((cv, nx))) && cv@ == c && nx == next,
        },
{
    proof {
        lemma_word_bounds(buf@, pos as int);
    }
    if pos < buf.len() && buf[pos] == 10 {
        return Err(RedisParseError::InvalidLine);
    }
    match word(buf, pos) {
        None => Ok(None),
        Some((w, next)) => {
            if buf[next - 2] != 13 {
                return Err(RedisParseError::InvalidLine);
            }
            let mut i: usize = w.0;
            while i < w.1
                invariant
                    w.0 <= i <= w.1 < buf.len(),
                    forall|k: int| w.0 <= k < i ==> buf@[k] != 13 && buf@[k] != 10,
                decreases w.1 - i,
            {
                if buf[i] == 13 || buf[i] == 10 {
                    proof {
                        let c = buf@.subrange(w.0 as int, w.1 as int);
                        assert(c[i - w.0] == buf@[i as int]);
                        assert(!no_crlf(c));
                    }
                    return Err(RedisParseError::InvalidLine);
                }
                i = i + 1;
            }
            proof {
                let c = buf@.subrange(w.0 as int, w.1 as int);
                assert forall|k: int| 0 <= k < c.len() implies c[k] != 13 && c[k] != 10 by {
                    assert(c[k] == buf@[w.0 + k]);
                }
            }
            let content = copy_range(buf, w.0, w.1);
            Ok(Some((content, next)))
        },
    }
}

/// Read a CRLF-terminated signed-decimal word at `pos`.
pub fn int_word(buf: &Vec<u8>, pos: usize) -> (r: Result<
    Option<(i64, usize)>,
    RedisParseError,
>)
    ensures
        match spec_int_word(buf@, pos as int) {
            IntStep::IMore => r matches Ok(None),
            IntStep::IBad(e) => r matches Err(e2) && e2 == e,
            IntStep::IOk(v, next) => r matches Ok(Some((val, nx))) && val == v && nx == next,
        },
{
    proof {
        lemma_word_bounds(buf@, pos as int);
    }
    if pos < buf.len() && buf[pos] == 10 {
        return Err(RedisParseError::InvalidLine);
    }
    match word(buf, pos) {
        None => Ok(None),
        Some((w, next)) => {
            if buf[next - 2] != 13 {
                return Err(RedisParseError::InvalidLine);
            }
            let content = copy_range(buf, w.0, w.1);
            match parse_i64(content.as_slice()) {
                Some(v) => Ok(Some((v, next))),
                None => Err(RedisParseError::ParseInt),
            }
        },
    }
}

/// Prefix a run-outcome with already-parsed frames.
pub open spec fn step_prepend(prefix: Seq<RespV>, st: ParseSeqStep) -> ParseSeqStep {
    match st {
        ParseSeqStep::SMore => ParseSeqStep::SMore,
        ParseSeqStep::SFail(e) => ParseSeqStep::SFail(e),
        ParseSeqStep::SDone(vs, end) => ParseSeqStep::SDone(prefix + vs, end),
    }
}

proof fn lemma_views_push(s: Seq<RespValue>, v: RespValue)
    ensures
        views_of(s.push(v)) == views_of(s).push(v@),
{
    assert(views_of(s.push(v)) =~= views_of(s).push(v@));
}

/// Parse a simple string after its `+` tag.
pub fn simple_string(buf: &Vec<u8>, pos: usize) -> (r: Result<
    Option<(RespValue, usize)>,
    RedisParseError,
>)
    ensures
        match spec_line(buf@, pos as int) {
            ParseStepLine::LMore => r matches Ok(None),
            ParseStepLine::LBad => r matches Err(e) && e == RedisParseError::InvalidLine,
            ParseStepLine::LOk(c, next) => r matches Ok(Some((v, nx))) && v@ == RespV::Simple(c)
                && nx == next,
        },
{
    match line(buf, pos) {
        Ok(None) => Ok(None),
        Ok(Some((content, next))) => Ok(Some((RespValue::SimpleString(content), next))),
        Err(e) => Err(e),
    }
}

/// Parse an error frame after its `-` tag.
pub fn error(buf: &Vec<u8>, pos: usize) -> (r: Result<
    Option<(RespValue, usize)>,
    RedisParseError,
>)
    ensures
        match spec_line(buf@, pos as int) {
            ParseStepLine::LMore => r matches Ok(None),
            ParseStepLine::LBad => r matches Err(e) && e == RedisParseError::InvalidLine,
            ParseStepLine::LOk(c, next) => r matches Ok(Some((v, nx))) && v@ == RespV::Error(c)
                && nx == next,
        },
{
    match line(buf, pos) {
        Ok(None) => Ok(None),
        Ok(Some((content, next))) => Ok(Some((RespValue::Error(content), next))),
        Err(e) => Err(e),
    }
}

/// Parse an integer frame after its `:` tag.
pub fn resp_int(buf: &Vec<u8>, pos: usize) -> (r: Result<
    Option<(RespValue, usize)>,
    RedisParseError,
>)
    ensures
        match spec_int_word(buf@, pos as int) {
            IntStep::IMore => r matches Ok(None),
            IntStep::IBad(e) => r matches Err(e2) && e2 == e,
            IntStep::IOk(n, next) => r matches Ok(Some((v, nx))) && v@ == RespV::Int(n) && nx
                == next,
        },
{
    match int_word(buf, pos) {
        Ok(None) => Ok(None),
        Ok(Some((n, next))) => Ok(Some((RespValue::Int(n), next))),
        Err(e) => Err(e),
    }
}

/// Parse a bulk string after its `$` tag.
pub fn bulk_string(buf: &Vec<u8>, pos: usize) -> (r: Result<
    Option<(RespValue, usize)>,
    RedisParseError,
>)
    ensures
        match spec_bulk(buf@, pos as int) {
            ParseStep::More => r matches Ok(None),
            ParseStep::Fail(e) => r matches Err(e2) && e2 == e,
            ParseStep::Done(v, next) => r matches Ok(Some((val, nx))) && val@ == v && nx == next,
        },
{
    proof {
        lemma_word_bounds(buf@, pos as int);
    }
    match int_word(buf, pos) {
        Ok(None) => Ok(None),
        Err(e) => Err(e),
        Ok(Some((len, next))) => {
            if len < -1 {
                Err(RedisParseError::BadBulkStringSize(len))
            } else if len == -1 {
                Ok(Some((RespValue::NilString, next)))
            } else {
                let len_u = len as u64;
                let avail = (buf.len() - next) as u64;
                if avail < 2 || len_u > avail - 2 {
                    assert(buf@.len() < next + len + 2);
                    Ok(None)
                } else {
                    let end = next + len_u as usize;
                    if buf[end] == 13 && buf[end + 1] == 10 {
                        let content = copy_range(buf, next, end);
                        Ok(Some((RespValue::String(content), end + 2)))
                    } else {
                        Err(RedisParseError::InvalidLine)
                    }
                }
            }
        },
    }
}

/// Parse an array after its `*` tag.
#[verifier::loop_isolation(false)]
pub fn array(buf: &Vec<u8>, pos: usize) -> (r: Result<
    Option<(RespValue, usize)>,
    RedisParseError,
>)
    ensures
        match spec_array(buf@, pos as int) {
            ParseStep::More => r matches Ok(None),
            ParseStep::Fail(e) => r matches Err(e2) && e2 == e,
            ParseStep::Done(v, next) => r matches Ok(Some((val, nx))) && val@ == v && nx == next,
        },
    decreases buf.len() - pos, 0int,
{
    proof {
        lemma_word_bounds(buf@, pos as int);
    }
    match int_word(buf, pos) {
        Ok(None) => Ok(None),
        Err(e) => Err(e),
        Ok(Some((len, next))) => {
            if len < -1 {
                Err(RedisParseError::BadArraySize(len))
            } else if len == -1 {
                Ok(Some((RespValue::NilArray, next)))
            } else {
                let len_u = len as u64;
                let mut elems: Vec<RespValue> = Vec::new();
                let mut cur: usize = next;
                let mut k: u64 = 0;
                assert(views_of(elems@) =~= Seq::<RespV>::empty());
                assert(step_prepend(
                    views_of(elems@),
                    spec_parse_elems(buf@, cur as int, len_u - k),
                ) == spec_parse_elems(buf@, next as int, len as int));
                while k < len_u
                    invariant
                        0 <= k <= len_u,
                        elems.len() == k,
                        pos < cur <= buf.len(),
                        step_prepend(
                            views_of(elems@),
                            spec_parse_elems(buf@, cur as int, len_u - k),
                        ) == spec_parse_elems(buf@, next as int, len as int),
                    decreases len_u - k,
                {
                    proof {
                        lemma_parse_advances(buf@, cur as int);
                    }
                    match parse(buf, cur) {
                        Ok(None) => {
                            return Ok(None);
                        },
                        Err(e) => {
                            return Err(e);
                        },
                        Ok(Some((v, np))) => {
                            proof {
                                let pre = views_of(elems@);
                                let st_next = spec_parse_elems(buf@, np as int, len_u - k - 1);
                                lemma_views_push(elems@, v);
                                match st_next {
                                    ParseSeqStep::SDone(vs, end) => {
                                        assert(pre + (seq![v@] + vs) =~= pre.push(v@) + vs);
                                    },
                                    _ => {},
                                }
                            }
                            elems.push(v);
                            cur = np;
                            k = k + 1;
                        },
                    }
                }
                proof {
                    assert(spec_parse_elems(buf@, cur as int, 0) == ParseSeqStep::SDone(
                        Seq::<RespV>::empty(),
                        cur as int,
                    ));
                    assert(views_of(elems@) + Seq::<RespV>::empty() =~= views_of(elems@));
                    assert(spec_parse_elems(buf@, next as int, len as int)
                        == ParseSeqStep::SDone(views_of(elems@), cur as int));
                }
                let ghost evs = elems@;
                let out = RespValue::Array(elems);
                proof {
                    let a = out@->Arr_0;
                    assert(out@ == RespV::Arr(a));
                    assert forall|ix: int| 0 <= ix < a.len() implies a[ix] == views_of(evs)[ix] by {
                        assert(a[ix] == evs[ix]@);
                    }
                    assert(a =~= views_of(evs));
                }
                Ok(Some((out, cur)))
            }
        },
    }
}

/// Top-level parse: look at the tag byte and parse the frame accordingly.
pub fn parse(buf: &Vec<u8>, pos: usize) -> (r: Result<
    Option<(RespValue, usize)>,
    RedisParseError,
>)
    ensures
        match spec_parse(buf@, pos as int) {
            ParseStep::More => r matches Ok(None),
            ParseStep::Fail(e) => r matches Err(e2) && e2 == e,
            ParseStep::Done(v, next) => r matches Ok(Some((val, nx))) && val@ == v && nx == next,
        },
    decreases buf.len() - pos, 1int,
{
    if pos >= buf.len() {
        return Ok(None);
    }
    let tag = buf[pos];
    if tag == 43 {
        match simple_string(buf, pos + 1) {
            Ok(None) => Ok(None),
            Ok(Some(v)) => Ok(Some(v)),
            Err(e) => Err(e),
        }
    } else if tag == 45 {
        match error(buf, pos + 1) {
            Ok(None) => Ok(None),
            Ok(Some(v)) => Ok(Some(v)),
            Err(e) => Err(e),
        }
    } else if tag == 58 {
        match resp_int(buf, pos + 1) {
            Ok(None) => Ok(None),
            Ok(Some(v)) => Ok(Some(v)),
            Err(e) => Err(e),
        }
    } else if tag == 36 {
        bulk_string(buf, pos + 1)
    } else if tag == 42 {
        array(buf, pos + 1)
    } else {
        Err(RedisParseError::UnknownStartingByte(tag))
    }
}

/// Parse one frame from the front of the buffer. `Ok(None)` asks for more
/// input; on success the second component is the number of bytes consumed.
pub fn decode(buf: &Vec<u8>) -> (r: Result<Option<(RespValue, usize)>, RedisParseError>)
    ensures
        match spec_parse(buf@, 0) {
            ParseStep::More => r matches Ok(None),
            ParseStep::Fail(e) => r matches Err(e2) && e2 == e,
            ParseStep::Done(v, next) => r matches Ok(Some((val, nx))) && val@ == v && nx == next,
        },
{
    parse(buf, 0)
}

// ---------------------------------------------------------------------------
// Executable encoder
// ---------------------------------------------------------------------------
/// Append the wire encoding of `v` to `out`.
#[verifier::loop_isolation(false)]
pub fn encode_resp(v: &RespValue, out: &mut Vec<u8>)
    ensures
        final(out)@ == old(out)@ + spec_encode(v@),
    decreases v,
{
    match v {
        RespValue::SimpleString(b) => {
            out.push(43);
            append_bytes(out, b);
            out.push(13);
            out.push(10);
            assert(out@ =~= old(out)@ + spec_encode(v@));
        },
        RespValue::Error(b) => {
            out.push(45);
            append_bytes(out, b);
            out.push(13);
            out.push(10);
            assert(out@ =~= old(out)@ + spec_encode(v@));
        },
        RespValue::Int(i) => {
            out.push(58);
            push_i64_decimal(out, *i);
            out.push(13);
            out.push(10);
            assert(out@ =~= old(out)@ + spec_encode(v@));
        },
        RespValue::String(b) => {
            out.push(36);
            push_u64_decimal(out, b.len() as u64);
            out.push(13);
            out.push(10);
            append_bytes(out, b);
            out.push(13);
            out.push(10);
            assert(out@ =~= old(out)@ + spec_encode(v@));
        },
        RespValue::NilArray => {
            out.push(42);
            out.push(45);
            out.push(49);
            out.push(13);
            out.push(10);
            assert(out@ =~= old(out)@ + spec_encode(v@));
        },
        RespValue::NilString => {
            out.push(36);
            out.push(45);
            out.push(49);
            out.push(13);
            out.push(10);
            assert(out@ =~= old(out)@ + spec_encode(v@));
        },
        RespValue::Array(vs) => {
            out.push(42);
            push_u64_decimal(out, vs.len() as u64);
            out.push(13);
            out.push(10);
            let ghost base = out@;
            let ghost t = views_of(vs@);
            let mut i: usize = 0;
            assert(spec_encode_seq(t.take(0)) =~= Seq::<u8>::empty());
            assert(out@ =~= base + spec_encode_seq(t.take(0)));
            while i < vs.len()
                invariant
                    0 <= i <= vs.len(),
                    out@ == base + spec_encode_seq(t.take(i as int)),
                decreases vs.len() - i,
            {
                encode_resp(&vs[i], out);
                proof {
                    assert(t.take(i as int + 1).drop_last() =~= t.take(i as int));
                    assert(t.take(i as int + 1).last() == vs[i as int]@);
                    assert(base + spec_encode_seq(t.take(i as int)) + spec_encode(vs[i as int]@)
                        =~= base + spec_encode_seq(t.take(i as int + 1)));
                }
                i = i + 1;
            }
            proof {
                assert(t.take(vs.len() as int) =~= t);
                let a = v@->Arr_0;
                assert(v@ == RespV::Arr(a));
                assert forall|ix: int| 0 <= ix < a.len() implies a[ix] == t[ix] by {
                    assert(a[ix] == vs@[ix]@);
                }
                assert(a =~= t);
                assert(out@ =~= old(out)@ + spec_encode(v@));
            }
        },
    }
}

/// Append a copy of `b` to `out`.
fn append_bytes(out: &mut Vec<u8>, b: &Vec<u8>)
    ensures
        final(out)@ == old(out)@ + b@,
{
    let mut i: usize = 0;
    while i < b.len()
        invariant
            0 <= i <= b.len(),
            out@ =~= old(out)@ + b@.take(i as int),
        decreases b.len() - i,
    {
        out.push(b[i]);
        proof {
            assert(old(out)@ + b@.take(i as int) + seq![b@[i as int]] =~= old(out)@ + b@.take(
                i as int + 1,
            ));
        }
        i = i + 1;
    }
    proof {
        assert(b@.take(b.len() as int) =~= b@);
    }
}

/// The wire encoding of `v` as a fresh buffer.
pub fn encode(v: &RespValue) -> (r: Vec<u8>)
    ensures
        r@ == spec_encode(v@),
{
    let mut out: Vec<u8> = Vec::new();
    encode_resp(v, &mut out);
    assert(out@ =~= spec_encode(v@));
    out
}

} // verus!
