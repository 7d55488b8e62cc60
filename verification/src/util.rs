//! Byte-string and ASCII-decimal helpers shared by the codec, the store and
//! the snapshot format.

use vstd::prelude::*;

verus! {

// ---------------------------------------------------------------------------
// Decimal representations
// ---------------------------------------------------------------------------
/// The ASCII-decimal representation of a non-negative integer.
pub open spec fn dec_repr_u(n: int) -> Seq<u8>
    recommends
        n >= 0,
    decreases n,
{
    if n < 10 {
        seq![(48 + if n >= 0 {
            n
        } else {
            0
        }) as u8]
    } else {
        dec_repr_u(n / 10) + seq![(48 + n % 10) as u8]
    }
}

/// The ASCII-decimal representation of an integer, `-` prefixed when negative.
pub open spec fn dec_repr_i(n: int) -> Seq<u8> {
    if n < 0 {
        seq![45u8] + dec_repr_u(-n)
    } else {
        dec_repr_u(n)
    }
}

pub open spec fn is_ascii_digit(b: u8) -> bool {
    48 <= b <= 57
}

pub open spec fn all_digits(s: Seq<u8>) -> bool {
    forall|i: int| 0 <= i < s.len() ==> is_ascii_digit(#[trigger] s[i])
}

/// The value of a digit string, most significant digit first.
pub open spec fn dec_val(s: Seq<u8>) -> int
    decreases s.len(),
{
    if s.len() == 0 {
        0
    } else {
        dec_val(s.drop_last()) * 10 + (s.last() - 48)
    }
}

/// What `parse_u64` accepts: one or more digits whose value fits in a `u64`.
pub open spec fn parses_as_u64(s: Seq<u8>) -> bool {
    1 <= s.len() && all_digits(s) && dec_val(s) <= u64::MAX
}

pub open spec fn spec_parse_u64(s: Seq<u8>) -> Option<int> {
    if parses_as_u64(s) {
        Some(dec_val(s))
    } else {
        None
    }
}

/// What `parse_i64` accepts: an optional `-` sign, then one or more digits,
/// value within `i64` range.
pub open spec fn spec_parse_i64(s: Seq<u8>) -> Option<int> {
    if s.len() > 0 && s[0] == 45 {
        match spec_parse_u64(s.drop_first()) {
            Some(m) => if -m >= i64::MIN {
                Some(-m)
            } else {
                None
            },
            None => None,
        }
    } else {
        match spec_parse_u64(s) {
            Some(m) => if m <= i64::MAX {
                Some(m)
            } else {
                None
            },
            None => None,
        }
    }
}

pub open spec fn pow10(k: nat) -> int
    decreases k,
{
    if k == 0 {
        1
    } else {
        10 * pow10((k - 1) as nat)
    }
}

pub proof fn lemma_dec_val_nonneg(s: Seq<u8>)
    requires
        all_digits(s),
    ensures
        0 <= dec_val(s),
    decreases s.len(),
{
    if s.len() > 0 {
        assert(all_digits(s.drop_last())) by {
            assert(forall|i: int|
                0 <= i < s.len() - 1 ==> is_ascii_digit(#[trigger] s.drop_last()[i]) == is_ascii_digit(
                    s[i],
                ));
        }
        lemma_dec_val_nonneg(s.drop_last());
    }
}

pub proof fn lemma_pow10_19_fits()
    ensures
        pow10(19) < 0x10000000000000000,
{
    assert(pow10(19) == 10000000000000000000) by {
        reveal_with_fuel(pow10, 20);
    }
}

/// `dec_repr_u` yields digits whose value is the number itself.
pub proof fn lemma_dec_repr_u_val(n: int)
    requires
        n >= 0,
    ensures
        all_digits(dec_repr_u(n)),
        dec_val(dec_repr_u(n)) == n,
        dec_repr_u(n).len() >= 1,
    decreases n,
{
    if n < 10 {
        assert(dec_repr_u(n) =~= seq![(48 + n) as u8]);
        assert(seq![(48 + n) as u8].drop_last() =~= Seq::<u8>::empty());
        assert(dec_val(Seq::<u8>::empty()) == 0);
        assert(dec_val(dec_repr_u(n)) == n);
    } else {
        lemma_dec_repr_u_val(n / 10);
        let pre = dec_repr_u(n / 10);
        let whole = pre + seq![(48 + n % 10) as u8];
        assert(whole.drop_last() =~= pre);
        assert(whole.last() == (48 + n % 10) as u8);
        assert(dec_val(whole) == dec_val(pre) * 10 + n % 10);
    }
}

/// A bound on the length of a decimal representation.
pub proof fn lemma_dec_repr_u_len(n: int, k: nat)
    requires
        0 <= n < pow10(k),
        k >= 1,
    ensures
        dec_repr_u(n).len() <= k,
    decreases n,
{
    if n < 10 {
    } else {
        assert(pow10(k) == 10 * pow10((k - 1) as nat));
        assert(n / 10 < pow10((k - 1) as nat));
        if k - 1 >= 1 {
            lemma_dec_repr_u_len(n / 10, (k - 1) as nat);
        } else {
            assert(pow10(0) == 1);
        }
    }
}

// ---------------------------------------------------------------------------
// Executable decimal parsing and formatting
// ---------------------------------------------------------------------------
/// Parse an unsigned ASCII-decimal number of at most 19 digits.
pub fn parse_u64(s: &[u8]) -> (r: Option<u64>)
    ensures
        r is Some <==> spec_parse_u64(s@) is Some,
        r is Some ==> r->0 == spec_parse_u64(s@)->0,
{
    if s.len() < 1 {
        return None;
    }
    let mut acc: u64 = 0;
    let mut i: usize = 0;
    while i < s.len()
        invariant
            0 <= i <= s.len(),
            1 <= s.len(),
            all_digits(s@.take(i as int)),
            acc == dec_val(s@.take(i as int)),
        decreases s.len() - i,
    {
        let b = s[i];
        if b < 48 || b > 57 {
            proof {
                assert(!is_ascii_digit(s@[i as int]));
            }
            return None;
        }
        let d = (b - 48) as u64;
        proof {
            assert(s@.take(i as int + 1).drop_last() =~= s@.take(i as int));
            assert(s@.take(i as int + 1).last() == s@[i as int]);
        }
        if acc > (u64::MAX - d) / 10 {
            proof {
                let m = u64::MAX - d;
                assert(acc * 10 >= (m / 10) * 10 + 10);
                assert((m / 10) * 10 + m % 10 == m);
                assert(dec_val(s@.take(i as int + 1)) > u64::MAX);
                if all_digits(s@) {
                    lemma_dec_val_prefix_le(s@, i as int + 1);
                }
            }
            return None;
        }
        proof {
            let m = u64::MAX - d;
            assert(acc * 10 <= (m / 10) * 10);
            assert((m / 10) * 10 + m % 10 == m);
        }
        acc = acc * 10 + d;
        i = i + 1;
    }
    proof {
        assert(s@.take(s.len() as int) =~= s@);
    }
    Some(acc)
}

/// The value of a digit-string prefix never exceeds the value of the whole.
pub proof fn lemma_dec_val_prefix_le(s: Seq<u8>, i: int)
    requires
        all_digits(s),
        0 <= i <= s.len(),
    ensures
        dec_val(s.take(i)) <= dec_val(s),
    decreases s.len() - i,
{
    if i < s.len() {
        lemma_dec_val_prefix_le(s, i + 1);
        let t = s.take(i + 1);
        assert(t.drop_last() =~= s.take(i));
        assert(is_ascii_digit(t.last()));
        assert(all_digits(s.take(i))) by {
            assert(forall|j: int|
                0 <= j < i ==> is_ascii_digit(#[trigger] s.take(i)[j]) == is_ascii_digit(s[j]));
        }
        lemma_dec_val_nonneg(s.take(i));
        assert(dec_val(t) == dec_val(s.take(i)) * 10 + (t.last() - 48));
    } else {
        assert(s.take(i) =~= s);
    }
}

/// Parse a signed ASCII-decimal number.
pub fn parse_i64(s: &[u8]) -> (r: Option<i64>)
    ensures
        r is Some <==> spec_parse_i64(s@) is Some,
        r is Some ==> r->0 == spec_parse_i64(s@)->0,
{
    if s.len() > 0 && s[0] == 45 {
        let rest = vstd::slice::slice_subrange(s, 1, s.len());
        proof {
            assert(rest@ =~= s@.drop_first());
        }
        match parse_u64(rest) {
            Some(m) => {
                if m <= 0x8000000000000000u64 {
                    if m == 0x8000000000000000u64 {
                        Some(i64::MIN)
                    } else {
                        Some(-(m as i64))
                    }
                } else {
                    None
                }
            },
            None => None,
        }
    } else {
        match parse_u64(s) {
            Some(m) => {
                if m <= i64::MAX as u64 {
                    Some(m as i64)
                } else {
                    None
                }
            },
            None => None,
        }
    }
}

/// Append the decimal digits of `n` to `out`.
pub fn push_u64_decimal(out: &mut Vec<u8>, n: u64)
    ensures
        final(out)@ == old(out)@ + dec_repr_u(n as int),
    decreases n,
{
    if n < 10 {
        out.push(48 + n as u8);
        assert(out@ =~= old(out)@ + dec_repr_u(n as int));
    } else {
        push_u64_decimal(out, n / 10);
        out.push(48 + (n % 10) as u8);
        assert(out@ =~= old(out)@ + dec_repr_u(n as int));
    }
}

/// Append the decimal form of `n`, `-` prefixed when negative, to `out`.
pub fn push_i64_decimal(out: &mut Vec<u8>, n: i64)
    ensures
        final(out)@ == old(out)@ + dec_repr_i(n as int),
{
    if n < 0 {
        out.push(45);
        let mag: u64 = ((-(n + 1)) as u64) + 1;
        assert(mag == -(n as int));
        push_u64_decimal(out, mag);
        assert(out@ =~= old(out)@ + dec_repr_i(n as int));
    } else {
        push_u64_decimal(out, n as u64);
    }
}

/// The decimal form of a `u64` as a fresh byte string.
pub fn format_u64(n: u64) -> (r: Vec<u8>)
    ensures
        r@ == dec_repr_u(n as int),
{
    let mut out: Vec<u8> = Vec::new();
    push_u64_decimal(&mut out, n);
    assert(out@ =~= dec_repr_u(n as int));
    out
}

/// The decimal form of an `i64` as a fresh byte string.
pub fn format_i64(n: i64) -> (r: Vec<u8>)
    ensures
        r@ == dec_repr_i(n as int),
{
    let mut out: Vec<u8> = Vec::new();
    push_i64_decimal(&mut out, n);
    assert(out@ =~= dec_repr_i(n as int));
    out
}

/// The decimal digits round-trip: parsing the representation of `n` gives `n`
/// back for every `u64`.
pub proof fn lemma_u64_decimal_round_trip(n: u64)
    ensures
        spec_parse_u64(dec_repr_u(n as int)) == Some(n as int),
{
    lemma_dec_repr_u_val(n as int);
}

/// Same round trip for signed values.
pub proof fn lemma_i64_decimal_round_trip(n: i64)
    ensures
        spec_parse_i64(dec_repr_i(n as int)) == Some(n as int),
{
    if n < 0 {
        let mag = -(n as int);
        lemma_dec_repr_u_val(mag);
        let s = dec_repr_i(n as int);
        assert(s[0] == 45);
        assert(s.drop_first() =~= dec_repr_u(mag));
    } else {
        lemma_u64_decimal_round_trip(n as u64);
        let s = dec_repr_i(n as int);
        assert(s == dec_repr_u(n as int));
        if s.len() > 0 && s[0] == 45 {
            lemma_dec_repr_u_val(n as int);
            assert(is_ascii_digit(s[0]));
        }
    }
}

/// Digits never contain a CR or LF byte.
pub proof fn lemma_dec_repr_i_no_crlf(n: int)
    ensures
        forall|i: int|
            0 <= i < dec_repr_i(n).len() ==> #[trigger] dec_repr_i(n)[i] != 13 && dec_repr_i(n)[i]
                != 10,
{
    if n < 0 {
        lemma_dec_repr_u_val(-n);
        let s = dec_repr_i(n);
        assert(forall|i: int|
            1 <= i < s.len() ==> #[trigger] s[i] == dec_repr_u(-n)[i - 1] && is_ascii_digit(
                dec_repr_u(-n)[i - 1],
            ));
    } else {
        lemma_dec_repr_u_val(n);
    }
}

// ---------------------------------------------------------------------------
// Byte-string comparisons
// ---------------------------------------------------------------------------
/// Whether two byte strings hold the same bytes.
pub fn bytes_eq(a: &[u8], b: &[u8]) -> (r: bool)
    ensures
        r <==> a@ == b@,
{
    if a.len() != b.len() {
        return false;
    }
    let mut i: usize = 0;
    while i < a.len()
        invariant
            0 <= i <= a.len(),
            a.len() == b.len(),
            forall|j: int| 0 <= j < i ==> a@[j] == b@[j],
        decreases a.len() - i,
    {
        if a[i] != b[i] {
            return false;
        }
        i = i + 1;
    }
    proof {
        assert(a@ =~= b@);
    }
    true
}

/// Strict lexicographic order on byte strings.
pub open spec fn lex_lt(a: Seq<u8>, b: Seq<u8>) -> bool
    decreases a.len(),
{
    if b.len() == 0 {
        false
    } else if a.len() == 0 {
        true
    } else if a[0] < b[0] {
        true
    } else if a[0] > b[0] {
        false
    } else {
        lex_lt(a.drop_first(), b.drop_first())
    }
}

pub fn bytes_lt(a: &[u8], b: &[u8]) -> (r: bool)
    ensures
        r <==> lex_lt(a@, b@),
{
    let mut i: usize = 0;
    let min: usize = if a.len() < b.len() {
        a.len()
    } else {
        b.len()
    };
    proof {
        assert(a@.skip(0) =~= a@);
        assert(b@.skip(0) =~= b@);
    }
    while i < min
        invariant
            0 <= i <= min,
            min == if a.len() < b.len() {
                a.len() as int
            } else {
                b.len() as int
            },
            forall|j: int| 0 <= j < i ==> a@[j] == b@[j],
            lex_lt(a@, b@) == lex_lt(a@.skip(i as int), b@.skip(i as int)),
        decreases min - i,
    {
        proof {
            assert(a@.skip(i as int).drop_first() =~= a@.skip(i as int + 1));
            assert(b@.skip(i as int).drop_first() =~= b@.skip(i as int + 1));
        }
        if a[i] < b[i] {
            return true;
        }
        if a[i] > b[i] {
            return false;
        }
        i = i + 1;
    }
    proof {
        assert(a@.skip(i as int).len() == a.len() - i);
        assert(b@.skip(i as int).len() == b.len() - i);
    }
    a.len() < b.len()
}

/// Lexicographic order is transitive.
pub proof fn lemma_lex_lt_trans(a: Seq<u8>, b: Seq<u8>, c: Seq<u8>)
    requires
        lex_lt(a, b),
        lex_lt(b, c),
    ensures
        lex_lt(a, c),
    decreases a.len() + b.len() + c.len(),
{
    if c.len() == 0 {
    } else if a.len() == 0 {
    } else if b.len() == 0 {
    } else {
        if a[0] == b[0] && b[0] == c[0] {
            lemma_lex_lt_trans(a.drop_first(), b.drop_first(), c.drop_first());
        }
    }
}

/// Exactly one of `a < b`, `a == b`, `b < a` holds.
pub proof fn lemma_lex_lt_connex(a: Seq<u8>, b: Seq<u8>)
    ensures
        lex_lt(a, b) || lex_lt(b, a) || a == b,
        lex_lt(a, b) ==> !lex_lt(b, a) && a != b,
        lex_lt(b, a) ==> !lex_lt(a, b) && a != b,
    decreases a.len() + b.len(),
{
    if a.len() == 0 && b.len() == 0 {
        assert(a =~= b);
    } else if a.len() == 0 || b.len() == 0 {
    } else {
        if a[0] == b[0] {
            lemma_lex_lt_connex(a.drop_first(), b.drop_first());
            if a.drop_first() == b.drop_first() {
                assert forall|i: int| 0 <= i < a.len() implies a[i] == b[i] by {
                    if i > 0 {
                        assert(a[i] == a.drop_first()[i - 1]);
                        assert(b[i] == b.drop_first()[i - 1]);
                    }
                }
                assert(a =~= b);
            }
            if a == b {
                assert(a.drop_first() =~= b.drop_first());
            }
        } else {
            if a == b {
                assert(a[0] == b[0]);
            }
        }
    }
}

// ---------------------------------------------------------------------------
// ASCII case and searching
// ---------------------------------------------------------------------------
/// The ASCII-uppercase image of a byte string.
pub open spec fn upper(s: Seq<u8>) -> Seq<u8> {
    s.map(
        |_i: int, c: u8|
            if 97 <= c <= 122 {
                (c - 32) as u8
            } else {
                c
            },
    )
}

/// A fresh ASCII-uppercased copy.
pub fn to_upper(s: &[u8]) -> (r: Vec<u8>)
    ensures
        r@ == upper(s@),
{
    let mut out: Vec<u8> = Vec::new();
    let mut i: usize = 0;
    while i < s.len()
        invariant
            0 <= i <= s.len(),
            out@ =~= upper(s@).take(i as int),
        decreases s.len() - i,
    {
        let c = s[i];
        if 97 <= c && c <= 122 {
            out.push(c - 32);
        } else {
            out.push(c);
        }
        proof {
            assert(out@ =~= upper(s@).take(i as int + 1));
        }
        i = i + 1;
    }
    proof {
        assert(upper(s@).take(s@.len() as int) =~= upper(s@));
    }
    out
}

/// Whether two byte strings agree up to ASCII case.
pub fn eq_ignore_case(a: &[u8], b: &[u8]) -> (r: bool)
    ensures
        r <==> upper(a@) == upper(b@),
{
    if a.len() != b.len() {
        proof {
            if upper(a@) == upper(b@) {
                assert(upper(a@).len() == upper(b@).len());
            }
        }
        return false;
    }
    let mut i: usize = 0;
    while i < a.len()
        invariant
            0 <= i <= a.len(),
            a.len() == b.len(),
            forall|j: int| 0 <= j < i ==> upper(a@)[j] == upper(b@)[j],
        decreases a.len() - i,
    {
        let ca = a[i];
        let cb = b[i];
        let ua = if 97 <= ca && ca <= 122 {
            ca - 32
        } else {
            ca
        };
        let ub = if 97 <= cb && cb <= 122 {
            cb - 32
        } else {
            cb
        };
        if ua != ub {
            proof {
                assert(upper(a@)[i as int] == ua);
                assert(upper(b@)[i as int] == ub);
            }
            return false;
        }
        i = i + 1;
    }
    proof {
        assert(upper(a@) =~= upper(b@));
    }
    true
}

/// Index of the first occurrence of `target` in `s` at or after `from`.
pub open spec fn find_from(s: Seq<u8>, from: int, target: u8) -> Option<int>
    decreases s.len() - from,
{
    if from < 0 || from >= s.len() {
        None
    } else if s[from] == target {
        Some(from)
    } else {
        find_from(s, from + 1, target)
    }
}

/// First occurrence of a byte, scanning forward.
pub fn find_byte(s: &[u8], from: usize, target: u8) -> (r: Option<usize>)
    ensures
        match r {
            Some(j) => find_from(s@, from as int, target) == Some(j as int),
            None => find_from(s@, from as int, target) is None,
        },
{
    let mut i: usize = from;
    if i >= s.len() {
        return None;
    }
    while i < s.len()
        invariant
            from <= i <= s.len(),
            find_from(s@, from as int, target) == find_from(s@, i as int, target),
        decreases s.len() - i,
    {
        if s[i] == target {
            return Some(i);
        }
        i = i + 1;
    }
    None
}

} // verus!

