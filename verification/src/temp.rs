//! The numeric fast-path parser for value tokens.
//!
//! A well-formed value token has the shape `-?\d{1,2}\.\d`, i.e. an optional
//! minus sign, one or two integer digits, a decimal point and exactly one
//! fractional digit. Its numeric value scaled by ten is an integer in
//! [-999, 999]; the parser produces that scaled integer directly, with no
//! floating-point arithmetic.

use vstd::prelude::*;

verus! {

pub const MINUS: u8 = 45;

pub const DOT: u8 = 46;

pub const DIGIT_ZERO: u8 = 48;

pub const DIGIT_NINE: u8 = 57;

pub open spec fn is_digit(b: u8) -> bool {
    DIGIT_ZERO <= b && b <= DIGIT_NINE
}

pub open spec fn digit_val(b: u8) -> int {
    b - DIGIT_ZERO
}

/// `\d\.\d` or `\d\d\.\d`.
pub open spec fn is_unsigned_temp(s: Seq<u8>) -> bool {
    ||| (s.len() == 3 && is_digit(s[0]) && s[1] == DOT && is_digit(s[2]))
    ||| (s.len() == 4 && is_digit(s[0]) && is_digit(s[1]) && s[2] == DOT && is_digit(s[3]))
}

/// `-?\d{1,2}\.\d`.
pub open spec fn is_temp_token(s: Seq<u8>) -> bool {
    if s.len() > 0 && s[0] == MINUS {
        is_unsigned_temp(s.skip(1))
    } else {
        is_unsigned_temp(s)
    }
}

pub open spec fn unsigned_temp_value(s: Seq<u8>) -> int
    recommends
        is_unsigned_temp(s),
{
    if s.len() == 3 {
        digit_val(s[0]) * 10 + digit_val(s[2])
    } else {
        digit_val(s[0]) * 100 + digit_val(s[1]) * 10 + digit_val(s[3])
    }
}

/// The token's numeric value scaled by ten: `round(10 * value)` of the
/// decimal the token denotes, exact because the token has one fractional
/// digit.
pub open spec fn temp_value(s: Seq<u8>) -> int
    recommends
        is_temp_token(s),
{
    if s.len() > 0 && s[0] == MINUS {
        -unsigned_temp_value(s.skip(1))
    } else {
        unsigned_temp_value(s)
    }
}

/// Every well-formed token denotes a scaled value in [-999, 999], i.e. a
/// reading between -99.9 and 99.9.
pub proof fn lemma_temp_value_range(s: Seq<u8>)
    requires
        is_temp_token(s),
    ensures
        -999 <= temp_value(s) <= 999,
{
}

fn digit_check(b: u8) -> (r: bool)
    ensures
        r == is_digit(b),
{
    DIGIT_ZERO <= b && b <= DIGIT_NINE
}

fn unsigned_check(s: &[u8], off: usize) -> (r: bool)
    requires
        off <= s@.len(),
    ensures
        r == is_unsigned_temp(s@.skip(off as int)),
{
    let n = s.len() - off;
    let ghost t = s@.skip(off as int);
    assert(forall|i: int| 0 <= i < t.len() ==> t[i] == s@[off + i]);
    if n == 3 {
        digit_check(s[off]) && s[off + 1] == DOT && digit_check(s[off + 2])
    } else if n == 4 {
        digit_check(s[off]) && digit_check(s[off + 1]) && s[off + 2] == DOT && digit_check(
            s[off + 3],
        )
    } else {
        false
    }
}

/// Decides whether `s` is a well-formed value token.
pub fn is_valid_temp(s: &[u8]) -> (r: bool)
    ensures
        r == is_temp_token(s@),
{
    if s.len() > 0 && s[0] == MINUS {
        unsigned_check(s, 1)
    } else {
        unsigned_check(s, 0)
    }
}

/// The running accumulator of the fast-path scan after `i` bytes: digits seen
/// so far folded in base ten, every other byte skipped.
pub open spec fn scan_acc(s: Seq<u8>, i: int) -> int
    decreases i,
{
    if i <= 0 {
        0
    } else if is_digit(s[i - 1]) {
        scan_acc(s, i - 1) * 10 + digit_val(s[i - 1])
    } else {
        scan_acc(s, i - 1)
    }
}

pub open spec fn has_minus(s: Seq<u8>, i: int) -> bool {
    exists|j: int| 0 <= j < i && s[j] == MINUS
}

proof fn lemma_has_minus_step(s: Seq<u8>, i: int)
    requires
        0 <= i < s.len(),
    ensures
        has_minus(s, i + 1) == (has_minus(s, i) || s[i] == MINUS),
{
    if has_minus(s, i + 1) {
        let j = choose|j: int| 0 <= j < i + 1 && s[j] == MINUS;
        if j < i {
            assert(has_minus(s, i));
        }
    }
    if has_minus(s, i) {
        let j = choose|j: int| 0 <= j < i && s[j] == MINUS;
        assert(0 <= j < i + 1 && s[j] == MINUS);
        assert(has_minus(s, i + 1));
    }
    if s[i] == MINUS {
        assert(0 <= i < i + 1 && s[i] == MINUS);
        assert(has_minus(s, i + 1));
    }
}

/// For a well-formed token the accumulator never leaves [0, 999], and stays
/// within [0, 99] while bytes remain.
proof fn lemma_scan_bounds(s: Seq<u8>, i: int)
    requires
        is_temp_token(s),
        0 <= i <= s.len(),
    ensures
        0 <= scan_acc(s, i) <= 999,
        i < s.len() ==> scan_acc(s, i) <= 99,
    decreases i,
{
    if i > 0 {
        lemma_scan_bounds(s, i - 1);
        assert(scan_acc(s, 0) == 0);
        if s[0] == MINUS {
            let t = s.skip(1);
            assert(forall|k: int| 0 <= k < t.len() ==> t[k] == s[k + 1]);
            if t.len() == 3 {
                assert(scan_acc(s, 1) == 0);
                if i >= 2 {
                    assert(scan_acc(s, 2) == digit_val(s[1]));
                }
                if i >= 3 {
                    assert(scan_acc(s, 3) == scan_acc(s, 2));
                }
                if i >= 4 {
                    assert(scan_acc(s, 4) == scan_acc(s, 3) * 10 + digit_val(s[3]));
                }
            } else {
                assert(scan_acc(s, 1) == 0);
                if i >= 2 {
                    assert(scan_acc(s, 2) == digit_val(s[1]));
                }
                if i >= 3 {
                    assert(scan_acc(s, 3) == scan_acc(s, 2) * 10 + digit_val(s[2]));
                }
                if i >= 4 {
                    assert(scan_acc(s, 4) == scan_acc(s, 3));
                }
                if i >= 5 {
                    assert(scan_acc(s, 5) == scan_acc(s, 4) * 10 + digit_val(s[4]));
                }
            }
        } else {
            if s.len() == 3 {
                assert(scan_acc(s, 1) == digit_val(s[0]));
                if i >= 2 {
                    assert(scan_acc(s, 2) == scan_acc(s, 1));
                }
                if i >= 3 {
                    assert(scan_acc(s, 3) == scan_acc(s, 2) * 10 + digit_val(s[2]));
                }
            } else {
                assert(scan_acc(s, 1) == digit_val(s[0]));
                if i >= 2 {
                    assert(scan_acc(s, 2) == scan_acc(s, 1) * 10 + digit_val(s[1]));
                }
                if i >= 3 {
                    assert(scan_acc(s, 3) == scan_acc(s, 2));
                }
                if i >= 4 {
                    assert(scan_acc(s, 4) == scan_acc(s, 3) * 10 + digit_val(s[3]));
                }
            }
        }
    }
}

/// At the end of the scan the accumulator holds the unsigned value, and a
/// minus was seen exactly when the token starts with one.
proof fn lemma_scan_value(s: Seq<u8>)
    requires
        is_temp_token(s),
    ensures
        has_minus(s, s.len() as int) == (s[0] == MINUS),
        s[0] == MINUS ==> scan_acc(s, s.len() as int) == unsigned_temp_value(s.skip(1)),
        s[0] != MINUS ==> scan_acc(s, s.len() as int) == unsigned_temp_value(s),
{
    if s[0] == MINUS {
        let t = s.skip(1);
        assert(forall|k: int| 0 <= k < t.len() ==> t[k] == s[k + 1]);
        assert(has_minus(s, s.len() as int));
        assert(scan_acc(s, 0) == 0);
        assert(scan_acc(s, 1) == 0);
        if t.len() == 3 {
            assert(scan_acc(s, 2) == digit_val(s[1]));
            assert(scan_acc(s, 3) == scan_acc(s, 2));
            assert(scan_acc(s, 4) == scan_acc(s, 3) * 10 + digit_val(s[3]));
            assert(scan_acc(s, 4) == digit_val(t[0]) * 10 + digit_val(t[2]));
        } else {
            assert(scan_acc(s, 2) == digit_val(s[1]));
            assert(scan_acc(s, 3) == scan_acc(s, 2) * 10 + digit_val(s[2]));
            assert(scan_acc(s, 4) == scan_acc(s, 3));
            assert(scan_acc(s, 5) == scan_acc(s, 4) * 10 + digit_val(s[4]));
            assert(scan_acc(s, 5) == digit_val(t[0]) * 100 + digit_val(t[1]) * 10 + digit_val(
                t[3],
            ));
        }
    } else {
        assert forall|j: int| 0 <= j < s.len() implies s[j] != MINUS by {
            if s.len() == 3 {
                assert(is_digit(s[0]) && s[1] == DOT && is_digit(s[2]));
            } else {
                assert(is_digit(s[0]) && is_digit(s[1]) && s[2] == DOT && is_digit(s[3]));
            }
        }
        assert(!has_minus(s, s.len() as int));
        assert(scan_acc(s, 0) == 0);
        assert(scan_acc(s, 1) == digit_val(s[0]));
        if s.len() == 3 {
            assert(scan_acc(s, 2) == scan_acc(s, 1));
            assert(scan_acc(s, 3) == scan_acc(s, 2) * 10 + digit_val(s[2]));
        } else {
            assert(scan_acc(s, 2) == scan_acc(s, 1) * 10 + digit_val(s[1]));
            assert(scan_acc(s, 3) == scan_acc(s, 2));
            assert(scan_acc(s, 4) == scan_acc(s, 3) * 10 + digit_val(s[3]));
        }
    }
}

/// The fast-path parser: scans the token once, tracks the sign on seeing a
/// minus, folds digits in base ten (skipping the decimal point), and negates
/// at the end. The result is the token's value scaled by ten.
pub fn parse_temp(s: &[u8]) -> (t: i64)
    requires
        is_temp_token(s@),
    ensures
        t == temp_value(s@),
        -999 <= t <= 999,
{
    let n = s.len();
    let mut result: i64 = 0;
    let mut negative: bool = false;
    let mut i: usize = 0;
    while i < n
        invariant
            is_temp_token(s@),
            n == s@.len(),
            i <= n,
            result == scan_acc(s@, i as int),
            0 <= result <= 999,
            i < n ==> result <= 99,
            negative == has_minus(s@, i as int),
        decreases n - i,
    {
        let b = s[i];
        if b == MINUS {
            negative = true;
        } else if DIGIT_ZERO <= b && b <= DIGIT_NINE {
            result = result * 10 + (b - DIGIT_ZERO) as i64;
        }
        proof {
            lemma_has_minus_step(s@, i as int);
            lemma_scan_bounds(s@, i + 1);
        }
        i = i + 1;
    }
    proof {
        lemma_scan_value(s@);
    }
    if negative {
        -result
    } else {
        result
    }
}

} // verus!
