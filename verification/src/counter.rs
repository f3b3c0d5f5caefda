//! The persistent build counter's read-modify-write logic: parsing a counter
//! file's contents, recovering from corruption, incrementing, and rendering
//! the new value as decimal text.
//!
//! File handling itself (opening, locking, reading and writing) is the
//! caller's: everything here is a function of the bytes alone, plus one
//! trusted call that reads the wall clock for the corruption-recovery seed.

use vstd::prelude::*;

verus! {

/// An ASCII whitespace byte, ignored at either end of the counter file.
pub open spec fn is_ascii_whitespace(b: u8) -> bool {
    b == 0x20 || b == 0x09 || b == 0x0a || b == 0x0c || b == 0x0d
}

/// An ASCII decimal digit.
pub open spec fn is_ascii_digit(b: u8) -> bool {
    0x30 <= b <= 0x39
}

/// Every byte of `s` is an ASCII decimal digit.
pub open spec fn all_digits(s: Seq<u8>) -> bool {
    forall|i: int| 0 <= i < s.len() ==> is_ascii_digit(s[i])
}

/// `s` without its leading ASCII whitespace.
pub open spec fn trim_front(s: Seq<u8>) -> Seq<u8>
    decreases s.len(),
{
    if s.len() > 0 && is_ascii_whitespace(s[0]) {
        trim_front(s.drop_first())
    } else {
        s
    }
}

/// `s` without its trailing ASCII whitespace.
pub open spec fn trim_back(s: Seq<u8>) -> Seq<u8>
    decreases s.len(),
{
    if s.len() > 0 && is_ascii_whitespace(s.last()) {
        trim_back(s.drop_last())
    } else {
        s
    }
}

/// `s` without leading or trailing ASCII whitespace.
pub open spec fn trimmed(s: Seq<u8>) -> Seq<u8> {
    trim_back(trim_front(s))
}

/// The value of a sequence of ASCII digits, most significant first.
pub open spec fn digits_value(s: Seq<u8>) -> int
    decreases s.len(),
{
    if s.len() == 0 {
        0
    } else {
        digits_value(s.drop_last()) * 10 + (s.last() - 0x30)
    }
}

/// The digit run of the counter file's contents: surrounding whitespace is
/// ignored and one optional leading `+` sign is accepted.
pub open spec fn digit_part(s: Seq<u8>) -> Seq<u8> {
    let t = trimmed(s);
    if t.len() > 0 && t[0] == 0x2b {
        t.drop_first()
    } else {
        t
    }
}

/// The counter file's contents read as an unsigned 64-bit decimal value:
/// the digit run must be non-empty, all digits, and fit in 64 bits.
pub open spec fn spec_parse_counter(s: Seq<u8>) -> Option<u64> {
    let d = digit_part(s);
    if d.len() > 0 && all_digits(d) && digits_value(d) <= u64::MAX {
        Some(digits_value(d) as u64)
    } else {
        None
    }
}

/// An all-digit run is worth at least zero.
proof fn lemma_digits_value_nonneg(s: Seq<u8>)
    requires
        all_digits(s),
    ensures
        digits_value(s) >= 0,
    decreases s.len(),
{
    if s.len() > 0 {
        assert(forall|i: int| 0 <= i < s.drop_last().len() ==> is_ascii_digit(
            #[trigger] s.drop_last()[i],
        ));
        lemma_digits_value_nonneg(s.drop_last());
    }
}

/// A prefix of an all-digit run is worth no more than the whole run.
proof fn lemma_digits_value_mono(s: Seq<u8>, i: int)
    requires
        all_digits(s),
        0 <= i <= s.len(),
    ensures
        digits_value(s.take(i)) <= digits_value(s),
    decreases s.len() - i,
{
    if i == s.len() {
        assert(s.take(i) =~= s);
    } else {
        assert(s.take(i + 1).drop_last() =~= s.take(i));
        assert(s.take(i + 1).last() == s[i]);
        assert(forall|j: int| 0 <= j < s.take(i).len() ==> is_ascii_digit(
            #[trigger] s.take(i)[j],
        ));
        lemma_digits_value_nonneg(s.take(i));
        assert(digits_value(s.take(i + 1)) == digits_value(s.take(i)) * 10 + (s[i] - 0x30));
        lemma_digits_value_mono(s, i + 1);
    }
}

/// Whether `b` is an ASCII whitespace byte.
fn is_ws_byte(b: u8) -> (r: bool)
    ensures
        r == is_ascii_whitespace(b),
{
    b == 0x20 || b == 0x09 || b == 0x0a || b == 0x0c || b == 0x0d
}

/// Reads the counter file's contents as an unsigned 64-bit decimal value:
/// surrounding ASCII whitespace and one optional leading `+` are accepted,
/// anything else (or a value that does not fit) yields `None`.
pub fn parse_counter(content: &[u8]) -> (r: Option<u64>)
    ensures
        r == spec_parse_counter(content@),
{
    let n: usize = content.len();
    proof {
        assert(content@.subrange(0, n as int) =~= content@);
    }
    let mut lo: usize = 0;
    while lo < n && is_ws_byte(content[lo])
        invariant
            0 <= lo <= n,
            n == content@.len(),
            trim_front(content@) == trim_front(content@.subrange(lo as int, n as int)),
        decreases n - lo,
    {
        proof {
            let s = content@.subrange(lo as int, n as int);
            assert(s[0] == content@[lo as int]);
            assert(s.drop_first() =~= content@.subrange(lo as int + 1, n as int));
        }
        lo = lo + 1;
    }
    proof {
        let s = content@.subrange(lo as int, n as int);
        if lo < n {
            assert(s[0] == content@[lo as int]);
        }
        assert(trim_front(content@) == s);
    }
    let mut hi: usize = n;
    while hi > lo && is_ws_byte(content[hi - 1])
        invariant
            lo <= hi <= n,
            n == content@.len(),
            trim_front(content@) == content@.subrange(lo as int, n as int),
            trim_back(content@.subrange(lo as int, n as int)) == trim_back(
                content@.subrange(lo as int, hi as int),
            ),
        decreases hi,
    {
        proof {
            let s = content@.subrange(lo as int, hi as int);
            assert(s.last() == content@[hi - 1]);
            assert(s.drop_last() =~= content@.subrange(lo as int, hi as int - 1));
        }
        hi = hi - 1;
    }
    proof {
        let s = content@.subrange(lo as int, hi as int);
        if hi > lo {
            assert(s.last() == content@[hi - 1]);
        }
        assert(trimmed(content@) == s);
    }
    let start: usize = if lo < hi && content[lo] == 0x2b {
        lo + 1
    } else {
        lo
    };
    proof {
        let t = content@.subrange(lo as int, hi as int);
        if t.len() > 0 && t[0] == 0x2b {
            assert(t.drop_first() =~= content@.subrange(lo as int + 1, hi as int));
        }
        if lo < hi {
            assert(t[0] == content@[lo as int]);
        }
        assert(digit_part(content@) == content@.subrange(start as int, hi as int));
    }
    let ghost d = content@.subrange(start as int, hi as int);
    if start == hi {
        return None;
    }
    let mut i: usize = start;
    while i < hi
        invariant
            start <= i <= hi <= n,
            n == content@.len(),
            d == content@.subrange(start as int, hi as int),
            digit_part(content@) == d,
            forall|j: int| start <= j < i ==> is_ascii_digit(#[trigger] content@[j]),
        decreases hi - i,
    {
        let b = content[i];
        if b < 0x30 || b > 0x39 {
            proof {
                assert(d[i as int - start as int] == content@[i as int]);
                assert(!all_digits(d));
            }
            return None;
        }
        i = i + 1;
    }
    proof {
        assert(forall|j: int| 0 <= j < d.len() ==> is_ascii_digit(#[trigger] d[j]));
    }
    let mut acc: u64 = 0;
    i = start;
    while i < hi
        invariant
            start <= i <= hi <= n,
            n == content@.len(),
            d == content@.subrange(start as int, hi as int),
            digit_part(content@) == d,
            start < hi,
            all_digits(d),
            acc == digits_value(d.take(i as int - start as int)),
        decreases hi - i,
    {
        let b = content[i];
        assert(is_ascii_digit(b)) by {
            assert(d[i as int - start as int] == content@[i as int]);
        }
        let digit: u64 = (b - 0x30) as u64;
        proof {
            let k = i as int - start as int;
            assert(d.take(k + 1).drop_last() =~= d.take(k));
            assert(d.take(k + 1).last() == d[k]);
            assert(d[k] == content@[i as int]);
            assert(digits_value(d.take(k + 1)) == acc * 10 + digit);
        }
        let next = match acc.checked_mul(10) {
            Some(x) => x.checked_add(digit),
            None => None,
        };
        match next {
            Some(y) => {
                acc = y;
            },
            None => {
                proof {
                    let k = i as int - start as int;
                    lemma_digits_value_mono(d, k + 1);
                    assert(digits_value(d) > u64::MAX);
                }
                return None;
            },
        }
        i = i + 1;
    }
    proof {
        assert(d.take(hi as int - start as int) =~= d);
    }
    Some(acc)
}

/// The decimal digits of `n`, most significant first, with no sign and no
/// leading zero (except for `n == 0` itself).
pub open spec fn spec_decimal(n: nat) -> Seq<u8>
    decreases n,
{
    if n < 10 {
        seq![(0x30 + n) as u8]
    } else {
        spec_decimal(n / 10).push((0x30 + n % 10) as u8)
    }
}

/// Renders `value` as decimal text, the exact bytes the counter file holds.
pub fn format_counter(value: u64) -> (r: Vec<u8>)
    ensures
        r@ == spec_decimal(value as nat),
{
    let mut out: Vec<u8> = Vec::new();
    let first: u8 = (value % 10) as u8 + 0x30;
    out.insert(0, first);
    proof {
        assert(out@ =~= seq![first]);
    }
    let mut m: u64 = value / 10;
    proof {
        if value < 10 {
            assert(value % 10 == value);
        } else {
            assert(spec_decimal(value as nat) == spec_decimal((value / 10) as nat).push(first));
            assert(spec_decimal((value / 10) as nat).push(first) =~= spec_decimal(
                (value / 10) as nat,
            ) + seq![first]);
        }
    }
    while m != 0
        invariant
            spec_decimal(value as nat) == if m == 0 {
                out@
            } else {
                spec_decimal(m as nat) + out@
            },
        decreases m,
    {
        let digit: u8 = (m % 10) as u8 + 0x30;
        proof {
            let prev = out@;
            if m < 10 {
                assert(m % 10 == m);
                assert(spec_decimal(m as nat) == seq![digit]);
                assert(seq![digit] + prev =~= prev.insert(0, digit));
            } else {
                assert(spec_decimal(m as nat) == spec_decimal((m / 10) as nat).push(digit));
                assert(spec_decimal((m / 10) as nat).push(digit) + prev =~= spec_decimal(
                    (m / 10) as nat,
                ) + prev.insert(0, digit));
            }
        }
        out.insert(0, digit);
        m = m / 10;
    }
    out
}

/// The previous counter value that an update starts from: the file's parsed
/// contents, or the recovery seed when the contents do not parse.
pub open spec fn spec_previous(content: Seq<u8>, seed: u64) -> u64 {
    match spec_parse_counter(content) {
        Some(v) => v,
        None => seed,
    }
}

/// One read-modify-write cycle's computation: the incremented counter value
/// together with the exact bytes the counter file must contain afterwards.
/// The caller supplies the recovery seed used when `content` does not parse.
pub fn advance_counter(content: &[u8], seed: u64) -> (r: (u64, Vec<u8>))
    requires
        spec_previous(content@, seed) < u64::MAX,
    ensures
        r.0 == spec_previous(content@, seed) + 1,
        r.1@ == spec_decimal(r.0 as nat),
{
    let prev: u64 = match parse_counter(content) {
        Some(v) => v,
        None => seed,
    };
    let next = prev + 1;
    let text = format_counter(next);
    (next, text)
}

/// Trusted: relies on `std::time::SystemTime::now` and
/// `SystemTime::duration_since(UNIX_EPOCH)` for whole seconds since the Unix
/// epoch, the corruption-recovery seed. Nothing is promised of the result (it
/// depends on the wall clock; a clock before the epoch yields 0): callers
/// must cope with every value.
#[verifier::external_body]
fn get_unix_timestamp() -> u64 {
    match std::time::SystemTime::now().duration_since(std::time::UNIX_EPOCH) {
        Ok(elapsed) => elapsed.as_secs(),
        Err(_) => 0,
    }
}

/// The whole counter-store computation for one update: parses the current
/// contents, falls back to a wall-clock seed when they do not parse, and
/// returns the new value with the bytes to write back. `None` only when the
/// incremented value would not fit in 64 bits.
pub fn next_counter_update(content: &[u8]) -> (r: Option<(u64, Vec<u8>)>)
    ensures
        match spec_parse_counter(content@) {
            Some(v) => if v < u64::MAX {
                r matches Some(u) && u.0 == v + 1 && u.1@ == spec_decimal(u.0 as nat)
            } else {
                r is None
            },
            None => r matches Some(u) ==> u.0 >= 1 && u.1@ == spec_decimal(u.0 as nat),
        },
{
    let prev: u64 = match parse_counter(content) {
        Some(v) => v,
        None => get_unix_timestamp(),
    };
    if prev == u64::MAX {
        return None;
    }
    let next = prev + 1;
    let text = format_counter(next);
    Some((next, text))
}

/// The decimal rendering of `n` is made of digits, at least one of them, and
/// is worth exactly `n`.
proof fn lemma_decimal_digits(n: nat)
    ensures
        all_digits(spec_decimal(n)),
        spec_decimal(n).len() >= 1,
        digits_value(spec_decimal(n)) == n,
    decreases n,
{
    if n < 10 {
        let b = (0x30 + n) as u8;
        assert(spec_decimal(n) == seq![b]);
        assert(seq![b].len() == 1);
        assert(seq![b].last() == b);
        assert(seq![b].drop_last() =~= Seq::<u8>::empty());
        assert(digits_value(seq![b]) == digits_value(Seq::<u8>::empty()) * 10 + (b - 0x30));
        assert(b - 0x30 == n);
    } else {
        lemma_decimal_digits(n / 10);
        let s = spec_decimal(n / 10);
        let digit = (0x30 + n % 10) as u8;
        assert(0 <= n % 10 < 10);
        assert(digit - 0x30 == n % 10);
        assert(s.push(digit).len() == s.len() + 1);
        assert(s.push(digit).drop_last() =~= s);
        assert(s.push(digit).last() == digit);
        assert(digits_value(s.push(digit)) == digits_value(s) * 10 + (digit - 0x30));
        vstd::arithmetic::div_mod::lemma_fundamental_div_mod(n as int, 10);
        assert(digits_value(s.push(digit)) == (n / 10) * 10 + n % 10);
        assert(forall|i: int| 0 <= i < s.push(digit).len() ==> is_ascii_digit(
            #[trigger] s.push(digit)[i],
        ));
    }
}

/// Rendering a counter value as decimal text and reading it back yields that
/// value: after a successful update the file's contents parse to exactly the
/// value the update returned, so nothing of the counter's history is lost.
pub proof fn lemma_decimal_round_trip(n: u64)
    ensures
        spec_parse_counter(spec_decimal(n as nat)) == Some(n),
{
    lemma_decimal_digits(n as nat);
    let s = spec_decimal(n as nat);
    assert(is_ascii_digit(s[0]));
    assert(is_ascii_digit(s.last()));
    assert(trim_front(s) == s);
    assert(trim_back(s) == s);
    assert(digit_part(s) == s);
}

/// Serialized updates never repeat a value: an update that starts from the
/// text a previous successful update wrote yields exactly the next value,
/// strictly above it, whatever recovery seed either update would have used.
pub proof fn lemma_updates_strictly_increase(content: Seq<u8>, seed1: u64, seed2: u64)
    requires
        spec_previous(content, seed1) < u64::MAX,
    ensures
        ({
            let first = spec_previous(content, seed1) + 1;
            &&& spec_previous(spec_decimal(first as nat), seed2) == first
            &&& first > spec_previous(content, seed1)
        }),
{
    let first = (spec_previous(content, seed1) + 1) as u64;
    lemma_decimal_round_trip(first);
}

/// A counter file that parses never goes backwards: the update writes back
/// exactly the parsed value plus one.
pub proof fn lemma_counter_monotonic(content: Seq<u8>, seed: u64, v: u64)
    requires
        spec_parse_counter(content) == Some(v),
        v < u64::MAX,
    ensures
        spec_previous(content, seed) == v,
        spec_parse_counter(spec_decimal((v + 1) as nat)) == Some((v + 1) as u64),
        spec_previous(content, seed) + 1 > v,
{
    lemma_decimal_round_trip((v + 1) as u64);
}

} // verus!
