//! Decimal formatting of scaled integers for the final report.
//!
//! A scaled value `v` in [-999, 999] prints as an optional minus sign, one
//! or two integer digits and exactly one fractional digit, e.g. `-3` prints
//! as `-0.3` and `245` as `24.5`.

use vstd::prelude::*;
use crate::temp::{DIGIT_ZERO, DOT, MINUS};
use crate::stats::{Bucket, bucket_avg};

verus! {

pub const LBRACE: u8 = 123;

pub const RBRACE: u8 = 125;

pub const COMMA: u8 = 44;

pub const SPACE: u8 = 32;

pub const EQUALS: u8 = 61;

pub const SLASH: u8 = 47;

/// The digits of a nonnegative scaled value `0 <= n <= 999`.
pub open spec fn fmt_unsigned(n: int) -> Seq<u8>
    recommends
        0 <= n <= 999,
{
    let ip = n / 10;
    let fp = n % 10;
    (if ip >= 10 {
        seq![(DIGIT_ZERO + ip / 10) as u8, (DIGIT_ZERO + ip % 10) as u8]
    } else {
        seq![(DIGIT_ZERO + ip) as u8]
    }) + seq![DOT, (DIGIT_ZERO + fp) as u8]
}

/// The printed form of a scaled value in [-999, 999].
pub open spec fn fmt_scaled(v: int) -> Seq<u8>
    recommends
        -999 <= v <= 999,
{
    if v < 0 {
        seq![MINUS] + fmt_unsigned(-v)
    } else {
        fmt_unsigned(v)
    }
}

/// Append the printed form of `v` to `out`.
pub fn push_scaled(out: &mut Vec<u8>, v: i64)
    requires
        -999 <= v <= 999,
    ensures
        final(out)@ == old(out)@ + fmt_scaled(v as int),
{
    let u: u64 = if v < 0 {
        out.push(MINUS);
        (-v) as u64
    } else {
        v as u64
    };
    let ip: u64 = u / 10;
    let fp: u64 = u % 10;
    if ip >= 10 {
        out.push(DIGIT_ZERO + (ip / 10) as u8);
        out.push(DIGIT_ZERO + (ip % 10) as u8);
    } else {
        out.push(DIGIT_ZERO + ip as u8);
    }
    out.push(DOT);
    out.push(DIGIT_ZERO + fp as u8);
    proof {
        assert(out@ =~= old(out)@ + fmt_scaled(v as int));
    }
}

/// One report entry: `key=avg/max/min`.
pub open spec fn entry_bytes(k: Seq<u8>, b: Bucket) -> Seq<u8>
    recommends
        b.count >= 1,
{
    k + seq![EQUALS] + fmt_scaled(bucket_avg(b)) + seq![SLASH] + fmt_scaled(b.max) + seq![SLASH]
        + fmt_scaled(b.min)
}

/// The first `n` entries of the report body, separated by `", "`.
pub open spec fn entries_prefix(s: Seq<(Seq<u8>, Bucket)>, n: int) -> Seq<u8>
    recommends
        n <= s.len(),
    decreases n,
{
    if n <= 0 {
        Seq::empty()
    } else if n == 1 {
        entry_bytes(s[0].0, s[0].1)
    } else {
        entries_prefix(s, n - 1) + seq![COMMA, SPACE] + entry_bytes(s[n - 1].0, s[n - 1].1)
    }
}

/// The whole report: the entries in table order, wrapped in braces.
pub open spec fn spec_report(s: Seq<(Seq<u8>, Bucket)>) -> Seq<u8> {
    seq![LBRACE] + entries_prefix(s, s.len() as int) + seq![RBRACE]
}

} // verus!
