//! Field decoders: small, independent, pure functions from an argument
//! token to a typed value.  Decoders never consult document-wide state, and
//! each one's contract is a spec function describing exactly which byte
//! strings it accepts and which value it returns.

use vstd::prelude::*;

use crate::document::{is_printable_byte, DASH, SP};

verus! {

/// ASCII decimal digits.
pub open spec fn is_digit(b: u8) -> bool {
    48 <= b && b <= 57
}

pub open spec fn all_digits(s: Seq<u8>) -> bool {
    forall|i: int| 0 <= i < s.len() ==> is_digit(s[i])
}

/// Powers of ten.
pub open spec fn pow10(n: nat) -> int
    decreases n,
{
    if n == 0 {
        1
    } else {
        10 * pow10((n - 1) as nat)
    }
}

/// The number a run of decimal digits denotes.
pub open spec fn dec_val(s: Seq<u8>) -> int
    decreases s.len(),
{
    if s.len() == 0 {
        0
    } else {
        dec_val(s.drop_last()) * 10 + (s.last() - 48)
    }
}

/// A decimal number token: non-empty, all digits, at most eighteen of them
/// (the documents' values are far smaller; the cap keeps every accepted
/// value inside `u64`).
pub open spec fn valid_dec(s: Seq<u8>) -> bool {
    1 <= s.len() <= 18 && all_digits(s)
}

pub open spec fn spec_parse_u64(s: Seq<u8>) -> Option<u64> {
    if valid_dec(s) {
        Some(dec_val(s) as u64)
    } else {
        None
    }
}

proof fn lemma_dec_val_bound(s: Seq<u8>)
    requires
        all_digits(s),
    ensures
        0 <= dec_val(s) < pow10(s.len()),
    decreases s.len(),
{
    if s.len() == 0 {
    } else {
        assert(all_digits(s.drop_last()));
        lemma_dec_val_bound(s.drop_last());
    }
}

/// Parses a decimal number: `Some` exactly on [`valid_dec`] tokens, with
/// the denoted value.
pub fn parse_u64(s: &Vec<u8>) -> (r: Option<u64>)
    ensures
        r == spec_parse_u64(s@),
{
    if s.len() == 0 || s.len() > 18 {
        return None;
    }
    let mut acc: u64 = 0;
    let mut i: usize = 0;
    proof {
        assert(s@.take(0) =~= Seq::<u8>::empty());
        lemma_pow10_pos(0);
    }
    while i < s.len()
        invariant
            0 <= i <= s@.len(),
            s@.len() <= 18,
            all_digits(s@.take(i as int)),
            acc == dec_val(s@.take(i as int)),
            acc < pow10(i as nat),
        decreases s@.len() - i,
    {
        let b = s[i];
        if !(48 <= b && b <= 57) {
            proof {
                assert(!all_digits(s@));
            }
            return None;
        }
        proof {
            assert(s@.take(i + 1).drop_last() =~= s@.take(i as int));
            assert(s@.take(i + 1).last() == s@[i as int]);
            lemma_pow10_18();
            assert(pow10(i as nat) <= pow10(17)) by {
                lemma_pow10_mono(i as nat, 17);
            }
        }
        acc = acc * 10 + ((b - 48) as u64);
        i = i + 1;
    }
    proof {
        assert(s@.take(s@.len() as int) =~= s@);
    }
    Some(acc)
}

/// `pow10` is positive.
proof fn lemma_pow10_pos(n: nat)
    ensures
        pow10(n) >= 1,
    decreases n,
{
    if n > 0 {
        lemma_pow10_pos((n - 1) as nat);
    }
}

/// `pow10` is monotone.
proof fn lemma_pow10_mono(a: nat, b: nat)
    requires
        a <= b,
    ensures
        pow10(a) <= pow10(b),
    decreases b,
{
    if a < b {
        lemma_pow10_mono(a, (b - 1) as nat);
        lemma_pow10_pos((b - 1) as nat);
    }
}

/// The numeric value of `pow10(18)`, by unfolding.
proof fn lemma_pow10_18()
    ensures
        pow10(18) == 1000000000000000000,
{
    reveal_with_fuel(pow10, 20);
}

/// Splitting a token run at every separator byte: always at least one
/// (possibly empty) token; a separator ends the token before it.
pub open spec fn spec_split_on(s: Seq<u8>, sep: u8) -> Seq<Seq<u8>>
    decreases s.len(),
{
    if s.len() == 0 {
        seq![Seq::<u8>::empty()]
    } else if s[0] == sep {
        seq![Seq::<u8>::empty()] + spec_split_on(s.drop_first(), sep)
    } else {
        let rest = spec_split_on(s.drop_first(), sep);
        seq![seq![s[0]] + rest[0]] + rest.drop_first()
    }
}

pub proof fn lemma_split_on_len(s: Seq<u8>, sep: u8)
    ensures
        spec_split_on(s, sep).len() >= 1,
    decreases s.len(),
{
    if s.len() == 0 {
    } else {
        lemma_split_on_len(s.drop_first(), sep);
    }
}

/// Re-extends the first of a token run with a leading partial token.
pub open spec fn prepend_tok(cur: Seq<u8>, ls: Seq<Seq<u8>>) -> Seq<Seq<u8>>
    recommends
        ls.len() >= 1,
{
    seq![cur + ls[0]] + ls.drop_first()
}

/// Deep view of a vector of tokens.
pub open spec fn toks_view(v: Seq<Vec<u8>>) -> Seq<Seq<u8>> {
    Seq::new(v.len(), |i: int| v[i]@)
}

/// Splits a token at every occurrence of `sep`.
pub fn split_on(s: &Vec<u8>, sep: u8) -> (r: Vec<Vec<u8>>)
    ensures
        toks_view(r@) == spec_split_on(s@, sep),
{
    let n = s.len();
    let mut done: Vec<Vec<u8>> = Vec::new();
    let mut cur: Vec<u8> = Vec::new();
    let mut pos: usize = 0;
    proof {
        assert(s@.skip(0) =~= s@);
        lemma_split_on_len(s@, sep);
        assert(prepend_tok(Seq::<u8>::empty(), spec_split_on(s@, sep)) =~~= spec_split_on(
            s@,
            sep,
        ));
    }
    while pos < n
        invariant
            0 <= pos <= n,
            n == s@.len(),
            spec_split_on(s@, sep) =~~= toks_view(done@) + prepend_tok(
                cur@,
                spec_split_on(s@.skip(pos as int), sep),
            ),
        decreases n - pos,
    {
        let b = s[pos];
        proof {
            assert(s@.skip(pos as int)[0] == s@[pos as int]);
            assert(s@.skip(pos as int).drop_first() =~= s@.skip(pos as int + 1));
            lemma_split_on_len(s@.skip(pos as int + 1), sep);
        }
        let ghost before = spec_split_on(s@.skip(pos as int), sep);
        let ghost after = spec_split_on(s@.skip(pos as int + 1), sep);
        if b == sep {
            proof {
                assert(before =~~= seq![Seq::<u8>::empty()] + after);
                assert(toks_view(done@) + prepend_tok(cur@, before) =~~= toks_view(
                    done@.push(cur),
                ) + prepend_tok(Seq::<u8>::empty(), after));
            }
            done.push(cur);
            cur = Vec::new();
        } else {
            proof {
                assert(before =~~= seq![seq![s@[pos as int]] + after[0]] + after.drop_first());
                assert(cur@ + before[0] =~= cur@.push(s@[pos as int]) + after[0]);
                assert(prepend_tok(cur@, before) =~~= prepend_tok(
                    cur@.push(s@[pos as int]),
                    after,
                ));
            }
            cur.push(b);
        }
        pos = pos + 1;
    }
    proof {
        assert(s@.skip(n as int) =~= Seq::<u8>::empty());
        assert(toks_view(done@.push(cur)) =~~= toks_view(done@) + seq![cur@]);
        assert(prepend_tok(cur@, spec_split_on(s@.skip(n as int), sep)) =~~= seq![cur@]);
    }
    done.push(cur);
    done
}

/// One `low-high` exit-port range; a single port stands for `low == high`.
#[derive(Debug, Clone, Copy, PartialEq, Eq, Structural)]
pub struct PortRange {
    pub low: u16,
    pub high: u16,
}

/// One port bound: a decimal number in 1..=65535.
pub open spec fn spec_parse_port(s: Seq<u8>) -> Option<u16> {
    match spec_parse_u64(s) {
        Some(v) => if 1 <= v && v <= 65535 {
            Some(v as u16)
        } else {
            None
        },
        None => None,
    }
}

fn parse_port(s: &Vec<u8>) -> (r: Option<u16>)
    ensures
        r == spec_parse_port(s@),
{
    match parse_u64(s) {
        Some(v) => if 1 <= v && v <= 65535 {
            Some(v as u16)
        } else {
            None
        },
        None => None,
    }
}

/// One `INT` or `INT-INT` range token.
pub open spec fn spec_parse_port_range(s: Seq<u8>) -> Option<PortRange> {
    let parts = spec_split_on(s, DASH);
    if parts.len() == 1 {
        match spec_parse_port(parts[0]) {
            Some(p) => Some(PortRange { low: p, high: p }),
            None => None,
        }
    } else if parts.len() == 2 {
        match (spec_parse_port(parts[0]), spec_parse_port(parts[1])) {
            (Some(lo), Some(hi)) => if lo <= hi {
                Some(PortRange { low: lo, high: hi })
            } else {
                None
            },
            _ => None,
        }
    } else {
        None
    }
}

fn parse_port_range(s: &Vec<u8>) -> (r: Option<PortRange>)
    ensures
        r == spec_parse_port_range(s@),
{
    let parts = split_on(s, DASH);
    proof {
        assert(parts@.len() == toks_view(parts@).len());
    }
    if parts.len() == 1 {
        proof {
            assert(parts@[0]@ == spec_split_on(s@, DASH)[0]);
        }
        match parse_port(&parts[0]) {
            Some(p) => Some(PortRange { low: p, high: p }),
            None => None,
        }
    } else if parts.len() == 2 {
        proof {
            assert(parts@[0]@ == spec_split_on(s@, DASH)[0]);
            assert(parts@[1]@ == spec_split_on(s@, DASH)[1]);
        }
        let lo = parse_port(&parts[0]);
        let hi = parse_port(&parts[1]);
        match (lo, hi) {
            (Some(lo), Some(hi)) => if lo <= hi {
                Some(PortRange { low: lo, high: hi })
            } else {
                None
            },
            _ => None,
        }
    } else {
        None
    }
}

/// A comma-separated port-range list, every entry valid.
pub open spec fn spec_parse_port_list(s: Seq<u8>) -> Option<Seq<PortRange>> {
    let toks = spec_split_on(s, 44);
    if forall|i: int| 0 <= i < toks.len() ==> spec_parse_port_range(#[trigger] toks[i]) is Some {
        Some(Seq::new(toks.len(), |i: int| spec_parse_port_range(toks[i])->Some_0))
    } else {
        None
    }
}

/// Parses a `p`-line port list: `Some` exactly when every comma-separated
/// entry is a valid port or non-reversed range.
#[verifier::loop_isolation(false)]
pub fn parse_port_list(s: &Vec<u8>) -> (r: Option<Vec<PortRange>>)
    ensures
        match r {
            Some(v) => spec_parse_port_list(s@) == Some(v@),
            None => spec_parse_port_list(s@) is None,
        },
{
    let toks = split_on(s, 44);
    let ghost tv = spec_split_on(s@, 44);
    let mut out: Vec<PortRange> = Vec::new();
    let mut i: usize = 0;
    while i < toks.len()
        invariant
            0 <= i <= toks@.len(),
            toks_view(toks@) == tv,
            forall|j: int| 0 <= j < i ==> spec_parse_port_range(#[trigger] tv[j]) is Some,
            out@ == Seq::new(i as nat, |j: int| spec_parse_port_range(tv[j])->Some_0),
        decreases toks@.len() - i,
    {
        proof {
            assert(toks@[i as int]@ == tv[i as int]);
        }
        match parse_port_range(&toks[i]) {
            Some(p) => {
                out.push(p);
                proof {
                    assert(out@ =~= Seq::new(
                        i as nat + 1,
                        |j: int| spec_parse_port_range(tv[j])->Some_0,
                    ));
                }
            },
            None => {
                proof {
                    assert(spec_parse_port_range(tv[i as int]) is None);
                    assert(!(forall|j: int|
                        0 <= j < tv.len() ==> spec_parse_port_range(#[trigger] tv[j]) is Some));
                }
                return None;
            },
        }
        i = i + 1;
    }
    proof {
        assert(out@ =~= Seq::new(tv.len(), |j: int| spec_parse_port_range(tv[j])->Some_0));
    }
    Some(out)
}

/// Copies `s[from..to]` into a fresh vector.
pub fn subvec(s: &Vec<u8>, from: usize, to: usize) -> (r: Vec<u8>)
    requires
        from <= to <= s@.len(),
    ensures
        r@ == s@.subrange(from as int, to as int),
{
    let mut out: Vec<u8> = Vec::new();
    let mut i: usize = from;
    while i < to
        invariant
            from <= i <= to <= s@.len(),
            out@ == s@.subrange(from as int, i as int),
        decreases to - i,
    {
        out.push(s[i]);
        proof {
            assert(out@ =~= s@.subrange(from as int, i + 1));
        }
        i = i + 1;
    }
    out
}

/// Index of the first `=` byte, or the length when there is none.
pub open spec fn first_eq(s: Seq<u8>) -> int
    decreases s.len(),
{
    if s.len() == 0 {
        0
    } else if s[0] == 61 {
        0
    } else {
        1 + first_eq(s.drop_first())
    }
}

pub proof fn lemma_first_eq(s: Seq<u8>)
    ensures
        0 <= first_eq(s) <= s.len(),
        forall|i: int| 0 <= i < first_eq(s) ==> s[i] != 61,
        first_eq(s) < s.len() ==> s[first_eq(s)] == 61,
    decreases s.len(),
{
    if s.len() == 0 || s[0] == 61 {
    } else {
        lemma_first_eq(s.drop_first());
        assert forall|i: int| 0 <= i < first_eq(s) implies s[i] != 61 by {
            if i > 0 {
                assert(s.drop_first()[i - 1] == s[i]);
            }
        }
        if first_eq(s) < s.len() {
            assert(s.drop_first()[first_eq(s) - 1] == s[first_eq(s)]);
        }
    }
}

/// `key=value`, split at the first `=`; the key must be non-empty and an
/// `=` must be present.
pub open spec fn spec_parse_kv(s: Seq<u8>) -> Option<(Seq<u8>, Seq<u8>)> {
    let j = first_eq(s);
    if 0 < j < s.len() {
        Some((s.subrange(0, j), s.subrange(j + 1, s.len() as int)))
    } else {
        None
    }
}

/// Splits `key=value` at the first `=`.
#[verifier::loop_isolation(false)]
pub fn parse_kv(s: &Vec<u8>) -> (r: Option<(Vec<u8>, Vec<u8>)>)
    ensures
        match r {
            Some(kv) => spec_parse_kv(s@) == Some((kv.0@, kv.1@)),
            None => spec_parse_kv(s@) is None,
        },
{
    let mut j: usize = 0;
    proof {
        assert(s@.skip(0) =~= s@);
    }
    while j < s.len() && s[j] != 61
        invariant
            0 <= j <= s@.len(),
            first_eq(s@) == j + first_eq(s@.skip(j as int)),
        decreases s@.len() - j,
    {
        proof {
            assert(s@.skip(j as int)[0] == s@[j as int]);
            assert(s@.skip(j as int).drop_first() =~= s@.skip(j as int + 1));
        }
        j = j + 1;
    }
    proof {
        if j < s@.len() {
            assert(s@.skip(j as int)[0] == s@[j as int]);
        }
        assert(first_eq(s@) == j);
    }
    if j == 0 || j >= s.len() {
        return None;
    }
    let key = subvec(s, 0, j);
    let val = subvec(s, j + 1, s.len());
    Some((key, val))
}

/// A signed 32-bit decimal integer, returned widened; `Some` exactly on an
/// optional `-` followed by digits denoting a value in `i32` range.
pub open spec fn spec_parse_i32(s: Seq<u8>) -> Option<i64> {
    if s.len() > 0 && s[0] == DASH {
        match spec_parse_u64(s.drop_first()) {
            Some(m) => if m <= 2147483648 {
                Some((-(m as int)) as i64)
            } else {
                None
            },
            None => None,
        }
    } else {
        match spec_parse_u64(s) {
            Some(m) => if m <= 2147483647 {
                Some(m as i64)
            } else {
                None
            },
            None => None,
        }
    }
}

/// Parses a signed 32-bit integer (the `Int32` of bandwidth weights).
pub fn parse_i32(s: &Vec<u8>) -> (r: Option<i64>)
    ensures
        r == spec_parse_i32(s@),
{
    if s.len() > 0 && s[0] == DASH {
        let mag = subvec(s, 1, s.len());
        proof {
            assert(mag@ =~= s@.drop_first());
        }
        match parse_u64(&mag) {
            Some(m) => if m <= 2147483648 {
                Some(-(m as i64))
            } else {
                None
            },
            None => None,
        }
    } else {
        match parse_u64(s) {
            Some(m) => if m <= 2147483647 {
                Some(m as i64)
            } else {
                None
            },
            None => None,
        }
    }
}

/// Upper-case hexadecimal digits.
pub open spec fn is_hex_upper(b: u8) -> bool {
    is_digit(b) || (65 <= b && b <= 70)
}

/// A fixed-length upper-case hex digest (forty digits for the SHA-1-based
/// identities).
pub open spec fn valid_hex_digest(s: Seq<u8>, n: int) -> bool {
    s.len() == n && (forall|i: int| 0 <= i < s.len() ==> is_hex_upper(s[i]))
}

/// Checks a fixed-length upper-case hex digest.
#[verifier::loop_isolation(false)]
pub fn check_hex_digest(s: &Vec<u8>, n: usize) -> (r: bool)
    ensures
        r == valid_hex_digest(s@, n as int),
{
    if s.len() != n {
        return false;
    }
    let mut i: usize = 0;
    while i < s.len()
        invariant
            0 <= i <= s@.len(),
            forall|j: int| 0 <= j < i ==> is_hex_upper(s@[j]),
        decreases s@.len() - i,
    {
        let b = s[i];
        if !((48 <= b && b <= 57) || (65 <= b && b <= 70)) {
            return false;
        }
        i = i + 1;
    }
    true
}

/// A non-empty base64 token (the alphabet, `=` padding included).
pub open spec fn valid_b64_token(s: Seq<u8>) -> bool {
    s.len() > 0 && (forall|i: int| 0 <= i < s.len() ==> crate::document::is_base64_byte(s[i]))
}

/// Checks a non-empty base64 token.
#[verifier::loop_isolation(false)]
pub fn check_b64_token(s: &Vec<u8>) -> (r: bool)
    ensures
        r == valid_b64_token(s@),
{
    if s.len() == 0 {
        return false;
    }
    let mut i: usize = 0;
    while i < s.len()
        invariant
            0 <= i <= s@.len(),
            forall|j: int| 0 <= j < i ==> crate::document::is_base64_byte(s@[j]),
        decreases s@.len() - i,
    {
        if !crate::grammar::base64_byte(s[i]) {
            return false;
        }
        i = i + 1;
    }
    true
}

/// A dotted-quad IPv4 address, one field per octet.
#[derive(Debug, Clone, Copy, PartialEq, Eq, Structural)]
pub struct Ipv4 {
    pub a: u8,
    pub b: u8,
    pub c: u8,
    pub d: u8,
}

/// A dotted-quad IPv4 address.
pub open spec fn spec_parse_ipv4(s: Seq<u8>) -> Option<Ipv4> {
    let parts = spec_split_on(s, 46);
    if parts.len() == 4 {
        match (
            spec_parse_u64(parts[0]),
            spec_parse_u64(parts[1]),
            spec_parse_u64(parts[2]),
            spec_parse_u64(parts[3]),
        ) {
            (Some(a), Some(b), Some(c), Some(d)) => if a <= 255 && b <= 255 && c <= 255 && d
                <= 255 {
                Some(Ipv4 { a: a as u8, b: b as u8, c: c as u8, d: d as u8 })
            } else {
                None
            },
            _ => None,
        }
    } else {
        None
    }
}

/// Parses a dotted-quad IPv4 address.
pub fn parse_ipv4(s: &Vec<u8>) -> (r: Option<Ipv4>)
    ensures
        r == spec_parse_ipv4(s@),
{
    let parts = split_on(s, 46);
    if parts.len() != 4 {
        return None;
    }
    proof {
        assert(parts@[0]@ == spec_split_on(s@, 46)[0]);
        assert(parts@[1]@ == spec_split_on(s@, 46)[1]);
        assert(parts@[2]@ == spec_split_on(s@, 46)[2]);
        assert(parts@[3]@ == spec_split_on(s@, 46)[3]);
    }
    let a = parse_u64(&parts[0]);
    let b = parse_u64(&parts[1]);
    let c = parse_u64(&parts[2]);
    let d = parse_u64(&parts[3]);
    match (a, b, c, d) {
        (Some(a), Some(b), Some(c), Some(d)) => if a <= 255 && b <= 255 && c <= 255 && d <= 255 {
            Some(Ipv4 { a: a as u8, b: b as u8, c: c as u8, d: d as u8 })
        } else {
            None
        },
        _ => None,
    }
}

/// A calendar timestamp, to the second.
#[derive(Debug, Clone, Copy, PartialEq, Eq, Structural)]
pub struct Timestamp {
    pub year: u16,
    pub month: u8,
    pub day: u8,
    pub hour: u8,
    pub minute: u8,
    pub second: u8,
}

pub open spec fn is_leap_year(y: int) -> bool {
    y % 4 == 0 && (y % 100 != 0 || y % 400 == 0)
}

pub open spec fn days_in_month(y: int, m: int) -> int {
    if m == 2 {
        if is_leap_year(y) {
            29
        } else {
            28
        }
    } else if m == 4 || m == 6 || m == 9 || m == 11 {
        30
    } else {
        31
    }
}

/// Calendar validity: month 1..=12, day fits the month (leap years
/// included), and the clock fields in range.
pub open spec fn valid_timestamp(t: Timestamp) -> bool {
    &&& 1 <= t.month <= 12
    &&& 1 <= t.day <= days_in_month(t.year as int, t.month as int)
    &&& t.hour <= 23
    &&& t.minute <= 59
    &&& t.second <= 59
}

/// Shape of the date half: `YYYY-MM-DD`.
pub open spec fn valid_date_shape(d: Seq<u8>) -> bool {
    &&& d.len() == 10
    &&& d[4] == DASH
    &&& d[7] == DASH
    &&& all_digits(d.subrange(0, 4))
    &&& all_digits(d.subrange(5, 7))
    &&& all_digits(d.subrange(8, 10))
}

/// Shape of the time half: `HH:MM:SS`.
pub open spec fn valid_time_shape(t: Seq<u8>) -> bool {
    &&& t.len() == 8
    &&& t[2] == 58
    &&& t[5] == 58
    &&& all_digits(t.subrange(0, 2))
    &&& all_digits(t.subrange(3, 5))
    &&& all_digits(t.subrange(6, 8))
}

/// The timestamp a well-shaped date and time pair denotes.
pub open spec fn timestamp_of(d: Seq<u8>, t: Seq<u8>) -> Timestamp {
    Timestamp {
        year: dec_val(d.subrange(0, 4)) as u16,
        month: dec_val(d.subrange(5, 7)) as u8,
        day: dec_val(d.subrange(8, 10)) as u8,
        hour: dec_val(t.subrange(0, 2)) as u8,
        minute: dec_val(t.subrange(3, 5)) as u8,
        second: dec_val(t.subrange(6, 8)) as u8,
    }
}

/// `YYYY-MM-DD HH:MM:SS`, strictly validated.
pub open spec fn spec_parse_timestamp(d: Seq<u8>, t: Seq<u8>) -> Option<Timestamp> {
    if valid_date_shape(d) && valid_time_shape(t) && valid_timestamp(timestamp_of(d, t)) {
        Some(timestamp_of(d, t))
    } else {
        None
    }
}

/// Reads a two-digit field.
fn read_2(s: &Vec<u8>, at: usize) -> (r: Option<u8>)
    requires
        at + 2 <= s@.len(),
    ensures
        match r {
            Some(v) => all_digits(s@.subrange(at as int, at + 2)) && v == dec_val(
                s@.subrange(at as int, at + 2),
            ),
            None => !all_digits(s@.subrange(at as int, at + 2)),
        },
{
    let n = s.len();
    let a = s[at];
    let b = s[at + 1];
    if 48 <= a && a <= 57 && 48 <= b && b <= 57 {
        proof {
            let sub = s@.subrange(at as int, at + 2);
            assert(sub.len() == 2);
            assert(sub[0] == a && sub[1] == b);
            assert(sub.last() == b);
            assert(sub.drop_last() =~= seq![a]);
            assert(seq![a].last() == a);
            assert(seq![a].drop_last() =~= Seq::<u8>::empty());
            reveal_with_fuel(dec_val, 4);
            assert(dec_val(sub) == (a - 48) * 10 + (b - 48));
            assert(forall|i: int| 0 <= i < 2 ==> is_digit(sub[i]));
        }
        Some((a - 48) * 10 + (b - 48))
    } else {
        proof {
            let sub = s@.subrange(at as int, at + 2);
            assert(sub[0] == a && sub[1] == b);
        }
        None
    }
}

/// Reads the four-digit year.
fn read_4(s: &Vec<u8>, at: usize) -> (r: Option<u16>)
    requires
        at + 4 <= s@.len(),
    ensures
        match r {
            Some(v) => all_digits(s@.subrange(at as int, at + 4)) && v == dec_val(
                s@.subrange(at as int, at + 4),
            ),
            None => !all_digits(s@.subrange(at as int, at + 4)),
        },
{
    let n = s.len();
    let a = s[at];
    let b = s[at + 1];
    let c = s[at + 2];
    let d = s[at + 3];
    if 48 <= a && a <= 57 && 48 <= b && b <= 57 && 48 <= c && c <= 57 && 48 <= d && d <= 57 {
        proof {
            let sub = s@.subrange(at as int, at + 4);
            assert(sub.len() == 4);
            assert(sub[0] == a && sub[1] == b && sub[2] == c && sub[3] == d);
            assert(sub.last() == d);
            assert(sub.drop_last() =~= seq![a, b, c]);
            assert(seq![a, b, c].last() == c);
            assert(seq![a, b, c].drop_last() =~= seq![a, b]);
            assert(seq![a, b].last() == b);
            assert(seq![a, b].drop_last() =~= seq![a]);
            assert(seq![a].last() == a);
            assert(seq![a].drop_last() =~= Seq::<u8>::empty());
            reveal_with_fuel(dec_val, 6);
            assert(dec_val(sub) == ((a - 48) * 1000 + (b - 48) * 100 + (c - 48) * 10 + (d - 48)));
            assert(forall|i: int| 0 <= i < 4 ==> is_digit(sub[i]));
        }
        Some(
            (a - 48) as u16 * 1000 + (b - 48) as u16 * 100 + (c - 48) as u16 * 10 + (d
                - 48) as u16,
        )
    } else {
        proof {
            let sub = s@.subrange(at as int, at + 4);
            assert(sub[0] == a && sub[1] == b && sub[2] == c && sub[3] == d);
        }
        None
    }
}

/// Parses a timestamp from its date and time tokens: `Some` exactly on a
/// well-shaped pair naming a real calendar date and clock time.
pub fn parse_timestamp(d: &Vec<u8>, t: &Vec<u8>) -> (r: Option<Timestamp>)
    ensures
        r == spec_parse_timestamp(d@, t@),
{
    if d.len() != 10 || t.len() != 8 {
        return None;
    }
    if d[4] != DASH || d[7] != DASH {
        return None;
    }
    if t[2] != 58 || t[5] != 58 {
        return None;
    }
    let year = match read_4(d, 0) {
        Some(v) => v,
        None => {
            return None;
        },
    };
    let month = match read_2(d, 5) {
        Some(v) => v,
        None => {
            return None;
        },
    };
    let day = match read_2(d, 8) {
        Some(v) => v,
        None => {
            return None;
        },
    };
    let hour = match read_2(t, 0) {
        Some(v) => v,
        None => {
            return None;
        },
    };
    let minute = match read_2(t, 3) {
        Some(v) => v,
        None => {
            return None;
        },
    };
    let second = match read_2(t, 6) {
        Some(v) => v,
        None => {
            return None;
        },
    };
    let ts = Timestamp { year, month, day, hour, minute, second };
    proof {
        assert(valid_date_shape(d@) && valid_time_shape(t@));
        assert(ts == timestamp_of(d@, t@));
    }
    if month < 1 || month > 12 {
        return None;
    }
    let leap = (year % 4 == 0) && (year % 100 != 0 || year % 400 == 0);
    let dim: u8 = if month == 2 {
        if leap {
            29
        } else {
            28
        }
    } else if month == 4 || month == 6 || month == 9 || month == 11 {
        30
    } else {
        31
    };
    proof {
        assert(leap == is_leap_year(ts.year as int));
        assert(dim == days_in_month(ts.year as int, ts.month as int));
    }
    if day < 1 || day > dim {
        return None;
    }
    if hour > 23 || minute > 59 || second > 59 {
        return None;
    }
    Some(ts)
}

} // verus!
