//! Timestamps read back from external tool output.
//!
//! Search results arrive with a modification time in one of two shapes: the
//! legacy `/Date(milliseconds)/` wrapper, parsed here digit by digit, or an
//! RFC 3339 date-and-time, handed to the chrono crate behind one trusted
//! wrapper. Either way the result is a second count since the epoch, with
//! zero for anything unreadable or before the epoch.

use vstd::prelude::*;
use crate::json::{is_digit_byte, dec_val};

verus! {

/// The seconds since the epoch that an RFC 3339 date-and-time string
/// denotes, or nothing for bytes chrono does not accept. A function of the
/// bytes alone.
pub uninterp spec fn rfc3339_epoch(s: Seq<u8>) -> Option<int>;

/// Relies on chrono's `DateTime::parse_from_rfc3339` and `timestamp`: which
/// strings parse, and the second count a parsed one denotes, depend on the
/// input alone.
#[verifier::external_body]
fn parse_rfc3339_seconds(s: &[u8]) -> (r: Option<i64>)
    ensures
        match r {
            Some(t) => rfc3339_epoch(s@) == Some(t as int),
            None => rfc3339_epoch(s@) is None,
        },
{
    match core::str::from_utf8(s) {
        Ok(text) => match chrono::DateTime::parse_from_rfc3339(text) {
            Ok(stamp) => Some(stamp.timestamp()),
            Err(_) => None,
        },
        Err(_) => None,
    }
}

/// Every byte is a decimal digit.
pub open spec fn all_digits(s: Seq<u8>) -> bool {
    forall|i: int| 0 <= i < s.len() ==> is_digit_byte(#[trigger] s[i])
}

/// Read an unsigned decimal number: some digits, any leading zeros, value
/// within a machine word.
pub fn parse_unsigned(s: &[u8]) -> (r: Option<u64>)
    ensures
        match r {
            Some(v) => s@.len() > 0 && all_digits(s@) && v == dec_val(s@, 0, s@.len() as int),
            None => s@.len() == 0 || !all_digits(s@) || dec_val(s@, 0, s@.len() as int)
                > u64::MAX,
        },
{
    let n = s.len();
    if n == 0 {
        return None;
    }
    let mut acc: u64 = 0;
    let mut i: usize = 0;
    while i < n
        invariant
            i <= n,
            n == s@.len(),
            n > 0,
            forall|q: int| 0 <= q < i ==> is_digit_byte(#[trigger] s@[q]),
            acc == dec_val(s@, 0, i as int),
        decreases n - i,
    {
        let b = s[i];
        if b < 0x30 || b > 0x39 {
            return None;
        }
        let d = b - 0x30;
        let wide: u128 = acc as u128 * 10 + d as u128;
        if wide > u64::MAX as u128 {
            proof {
                assert(dec_val(s@, 0, i as int + 1) > u64::MAX);
                lemma_dec_val_grows(s@, i as int + 1, n as int);
                assert(s@.subrange(0, n as int) =~= s@);
            }
            return None;
        }
        acc = wide as u64;
        i = i + 1;
    }
    Some(acc)
}

/// Once too large, a digit run's value stays too large as it extends.
pub proof fn lemma_dec_val_grows(s: Seq<u8>, j: int, k: int)
    requires
        0 <= j <= k <= s.len(),
        forall|q: int| 0 <= q < j ==> is_digit_byte(#[trigger] s[q]),
        dec_val(s, 0, j) > u64::MAX,
    ensures
        !all_digits(s.subrange(0, k)) || dec_val(s, 0, k) > u64::MAX,
    decreases k - j,
{
    if j < k {
        if is_digit_byte(s[j]) {
            assert(dec_val(s, 0, j + 1) == dec_val(s, 0, j) * 10 + (s[j] - 0x30));
            assert(dec_val(s, 0, j) * 10 >= dec_val(s, 0, j)) by (nonlinear_arith)
                requires
                    dec_val(s, 0, j) >= 0,
            ;
            lemma_dec_val_grows(s, j + 1, k);
        } else {
            assert(s.subrange(0, k)[j] == s[j]);
            assert(!all_digits(s.subrange(0, k)));
        }
    }
}

/// The bytes `/Date(` that open a legacy timestamp.
pub open spec fn legacy_open() -> Seq<u8> {
    seq![0x2fu8, 0x44u8, 0x61u8, 0x74u8, 0x65u8, 0x28u8]
}

/// The bytes `)/` that close a legacy timestamp.
pub open spec fn legacy_close() -> Seq<u8> {
    seq![0x29u8, 0x2fu8]
}

/// Whether the bytes wear the legacy `/Date(` ... `)/` dress, and the
/// milliseconds field inside it.
pub open spec fn legacy_body(s: Seq<u8>) -> Option<Seq<u8>> {
    if s.len() >= 8 && s.subrange(0, 6) == legacy_open() && s.subrange(
        s.len() - 2,
        s.len() as int,
    ) == legacy_close() {
        Some(s.subrange(6, s.len() - 2))
    } else {
        None
    }
}

/// The seconds a modification-time string denotes: the milliseconds of a
/// legacy `/Date(ms)/` value divided down, else what RFC 3339 parsing
/// gives, and zero for anything unreadable or before the epoch.
pub open spec fn modified_epoch(s: Seq<u8>) -> int {
    match legacy_body(s) {
        Some(d) => if d.len() > 0 && all_digits(d) && dec_val(d, 0, d.len() as int) <= u64::MAX {
            dec_val(d, 0, d.len() as int) / 1000
        } else {
            0
        },
        None => match rfc3339_epoch(s) {
            Some(t) => if t >= 0 && t <= u64::MAX {
                t
            } else {
                0
            },
            None => 0,
        },
    }
}

/// Read a modification time as seconds since the epoch.
pub fn parse_modified_time(s: &[u8]) -> (r: u64)
    ensures
        r == modified_epoch(s@),
{
    let n = s.len();
    let legacy = n >= 8 && s[0] == 0x2f && s[1] == 0x44 && s[2] == 0x61 && s[3] == 0x74 && s[4]
        == 0x65 && s[5] == 0x28 && s[n - 2] == 0x29 && s[n - 1] == 0x2f;
    if legacy {
        proof {
            assert(s@.subrange(0, 6) =~= legacy_open());
            assert(s@.subrange(n as int - 2, n as int) =~= legacy_close());
        }
        let mut body: Vec<u8> = Vec::new();
        let mut i: usize = 6;
        while i < n - 2
            invariant
                6 <= i <= n - 2,
                n == s@.len(),
                n >= 8,
                body@ == s@.subrange(6, i as int),
            decreases n - i,
        {
            body.push(s[i]);
            i = i + 1;
            proof {
                assert(body@ =~= s@.subrange(6, i as int));
            }
        }
        proof {
            assert(body@ == legacy_body(s@)->Some_0);
        }
        match parse_unsigned(body.as_slice()) {
            Some(ms) => ms / 1000,
            None => 0,
        }
    } else {
        proof {
            if s@.len() >= 8 && s@.subrange(0, 6) == legacy_open() && s@.subrange(
                s@.len() - 2,
                s@.len() as int,
            ) == legacy_close() {
                assert(s@.subrange(0, 6)[0] == s@[0]);
                assert(s@.subrange(0, 6)[1] == s@[1]);
                assert(s@.subrange(0, 6)[2] == s@[2]);
                assert(s@.subrange(0, 6)[3] == s@[3]);
                assert(s@.subrange(0, 6)[4] == s@[4]);
                assert(s@.subrange(0, 6)[5] == s@[5]);
                assert(s@.subrange(s@.len() - 2, s@.len() as int)[0] == s@[s@.len() - 2]);
                assert(s@.subrange(s@.len() - 2, s@.len() as int)[1] == s@[s@.len() - 1]);
            }
        }
        match parse_rfc3339_seconds(s) {
            Some(t) => {
                if t >= 0 {
                    t as u64
                } else {
                    0
                }
            },
            None => 0,
        }
    }
}

} // verus!
