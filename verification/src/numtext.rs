//! Decimal text for nano-degree values.
//!
//! A coordinate is written as an optional sign, whole degrees, and up to
//! nine fraction digits. Parsing and printing are exact over the model's
//! fixed-point values.

use vstd::prelude::*;
use crate::text::{is_dec_digit, digit_val, digit_of, dec_digits, char_is_digit, digit_char};

verus! {

/// Nano-units in one whole unit.
pub const NANO: i64 = 1_000_000_000;

/// Ten to the `k`.
pub open spec fn pow10(k: nat) -> int
    decreases k,
{
    if k == 0 {
        1
    } else {
        10 * pow10((k - 1) as nat)
    }
}

/// Every character is a decimal digit.
pub open spec fn all_digits(s: Seq<char>) -> bool {
    forall|i: int| 0 <= i < s.len() ==> is_dec_digit(#[trigger] s[i])
}

/// The value of a run of decimal digits, most significant first.
pub open spec fn digits_val(s: Seq<char>) -> int
    decreases s.len(),
{
    if s.len() == 0 {
        0
    } else {
        digits_val(s.drop_last()) * 10 + digit_val(s.last())
    }
}

/// Index of the first dot, if any.
pub open spec fn dot_pos(s: Seq<char>) -> Option<int>
    decreases s.len(),
{
    if s.len() == 0 {
        None
    } else if s[0] == '.' {
        Some(0)
    } else {
        match dot_pos(s.drop_first()) {
            Option::None => None,
            Option::Some(i) => Some(i + 1),
        }
    }
}

/// What the first-dot index means.
pub proof fn lemma_dot_props(s: Seq<char>)
    ensures
        dot_pos(s) matches Some(i) ==> 0 <= i < s.len() && s[i] == '.' && forall|j: int|
            0 <= j < i ==> s[j] != '.',
        dot_pos(s) is None ==> forall|j: int| 0 <= j < s.len() ==> s[j] != '.',
    decreases s.len(),
{
    if s.len() == 0 {
    } else if s[0] == '.' {
    } else {
        lemma_dot_props(s.drop_first());
        assert(forall|j: int| 0 <= j < s.len() - 1 ==> #[trigger] s.drop_first()[j] == s[j + 1]);
        match dot_pos(s.drop_first()) {
            Option::None => {
                assert forall|j: int| 0 <= j < s.len() implies s[j] != '.' by {
                    if j > 0 {
                        assert(s.drop_first()[j - 1] != '.');
                    }
                }
            },
            Option::Some(i) => {
                assert(s[i + 1] == s.drop_first()[i]);
                assert forall|j: int| 0 <= j < i + 1 implies s[j] != '.' by {
                    if j > 0 {
                        assert(s.drop_first()[j - 1] != '.');
                    }
                }
            },
        }
    }
}

/// The unsigned body of a decimal literal: whole digits, then optionally a
/// dot and up to nine fraction digits; at least one digit in all. `None`
/// when the text is not of that shape.
pub open spec fn body_val(s: Seq<char>) -> Option<int> {
    match dot_pos(s) {
        Option::None => {
            if s.len() > 0 && all_digits(s) {
                Some(digits_val(s) * NANO)
            } else {
                None
            }
        },
        Option::Some(i) => {
            let ip = s.subrange(0, i);
            let fp = s.subrange(i + 1, s.len() as int);
            if all_digits(ip) && all_digits(fp) && fp.len() <= 9 && ip.len() + fp.len() >= 1 {
                Some(digits_val(ip) * NANO + digits_val(fp) * pow10((9 - fp.len()) as nat))
            } else {
                None
            }
        },
    }
}

/// The value of a signed decimal literal in nano-units, or `None` when the
/// text is malformed or beyond the 64-bit range.
pub open spec fn fixed_val(s: Seq<char>) -> Option<i64> {
    let (neg, body) = if s.len() > 0 && s[0] == '-' {
        (true, s.drop_first())
    } else if s.len() > 0 && s[0] == '+' {
        (false, s.drop_first())
    } else {
        (false, s)
    };
    match body_val(body) {
        Option::None => None,
        Option::Some(v) => {
            let signed = if neg {
                -v
            } else {
                v
            };
            if -0x7fff_ffff_ffff_ffff <= signed <= 0x7fff_ffff_ffff_ffff {
                Some(signed as i64)
            } else {
                None
            }
        },
    }
}

/// A digit run's value never shrinks when digits are appended.
proof fn lemma_digits_val_nonneg(s: Seq<char>)
    requires
        all_digits(s),
    ensures
        digits_val(s) >= 0,
    decreases s.len(),
{
    if s.len() > 0 {
        assert(all_digits(s.drop_last())) by {
            assert(forall|i: int|
                0 <= i < s.len() - 1 ==> is_dec_digit(#[trigger] s.drop_last()[i]) == is_dec_digit(
                    s[i],
                ));
        }
        lemma_digits_val_nonneg(s.drop_last());
        assert(digit_val(s.last()) >= 0);
        assert(digits_val(s.drop_last()) * 10 >= 0) by (nonlinear_arith)
            requires
                digits_val(s.drop_last()) >= 0,
        ;
    }
}

/// The value of a digit prefix never exceeds the whole run's value.
proof fn lemma_digits_val_prefix(s: Seq<char>, n: int)
    requires
        all_digits(s),
        0 <= n <= s.len(),
    ensures
        digits_val(s.take(n)) <= digits_val(s),
    decreases s.len() - n,
{
    if n < s.len() {
        lemma_digits_val_prefix(s, n + 1);
        let t = s.take(n + 1);
        assert(t.drop_last() =~= s.take(n));
        assert(all_digits(t)) by {
            assert(forall|i: int| 0 <= i < n + 1 ==> is_dec_digit(#[trigger] t[i]) == is_dec_digit(s[i]));
        }
        lemma_digits_val_nonneg(s.take(n));
        assert(digits_val(t) == digits_val(s.take(n)) * 10 + digit_val(t.last()));
        assert(digits_val(s.take(n)) * 10 >= digits_val(s.take(n))) by (nonlinear_arith)
            requires
                digits_val(s.take(n)) >= 0,
        ;
    } else {
        assert(s.take(n) =~= s);
    }
}

/// Parses a run of digits, returning its value and reporting when the value
/// passed the 64-bit cap or a non-digit stopped the scan.
fn scan_digits(v: &Vec<char>, start: usize, end: usize) -> (r: (u64, usize, bool))
    requires
        start <= end <= v@.len(),
    ensures
        start <= r.1 <= end,
        forall|i: int| start <= i < r.1 ==> is_dec_digit(#[trigger] v@[i]),
        r.1 < end ==> !is_dec_digit(v@[r.1 as int]) || r.2,
        !r.2 ==> r.0 as int == digits_val(v@.subrange(start as int, r.1 as int)),
        !r.2 ==> r.0 <= 0x7fff_ffff_ffff_ffff,
        r.2 ==> digits_val(v@.subrange(start as int, r.1 as int)) > 0x7fff_ffff_ffff_ffff,
        r.2 ==> forall|i: int| start <= i < end ==> is_dec_digit(#[trigger] v@[i]) || i >= r.1,
{
    let mut acc: u64 = 0;
    let mut i = start;
    while i < end
        invariant
            start <= i <= end <= v@.len(),
            forall|j: int| start <= j < i ==> is_dec_digit(#[trigger] v@[j]),
            acc as int == digits_val(v@.subrange(start as int, i as int)),
            acc <= 0x7fff_ffff_ffff_ffff,
        decreases end - i,
    {
        let c = v[i];
        if !char_is_digit(c) {
            return (acc, i, false);
        }
        let d: u64 = (c as u32 - 48) as u64;
        proof {
            let sub = v@.subrange(start as int, i as int);
            let sub2 = v@.subrange(start as int, i + 1);
            assert(sub2.drop_last() =~= sub);
            assert(sub2.last() == v@[i as int]);
        }
        if acc > (0x7fff_ffff_ffff_ffffu64 - d) / 10 {
            proof {
                let sub2 = v@.subrange(start as int, i + 1);
                assert(digits_val(sub2) == acc as int * 10 + d);
                assert(acc as int * 10 + d > 0x7fff_ffff_ffff_ffff) by (nonlinear_arith)
                    requires
                        acc as int > (0x7fff_ffff_ffff_ffff - d as int) / 10,
                        0 <= d <= 9,
                ;
                assert(all_digits(sub2)) by {
                    assert(forall|j: int|
                        0 <= j < sub2.len() ==> sub2[j] == v@[start + j] && is_dec_digit(
                            #[trigger] sub2[j],
                        ) == is_dec_digit(v@[start + j]));
                }
                lemma_digits_val_prefix_general(v@, start as int, i + 1, end as int);
            }
            return (acc, i + 1, true);
        }
        proof {
            assert(acc as int * 10 + d <= 0x7fff_ffff_ffff_ffff) by (nonlinear_arith)
                requires
                    acc as int <= (0x7fff_ffff_ffff_ffff - d as int) / 10,
                    0 <= d <= 9,
            ;
        }
        acc = acc * 10 + d;
        i += 1;
    }
    (acc, i, false)
}

/// A digit run's value stays under ten to its length.
proof fn lemma_digits_val_upper(s: Seq<char>)
    requires
        all_digits(s),
    ensures
        digits_val(s) < pow10(s.len()),
    decreases s.len(),
{
    if s.len() == 0 {
    } else {
        assert(all_digits(s.drop_last())) by {
            assert(forall|i: int|
                0 <= i < s.len() - 1 ==> is_dec_digit(#[trigger] s.drop_last()[i]) == is_dec_digit(
                    s[i],
                ));
        }
        lemma_digits_val_upper(s.drop_last());
        assert(digits_val(s.drop_last()) * 10 + digit_val(s.last()) < pow10(s.len()))
            by (nonlinear_arith)
            requires
                digits_val(s.drop_last()) < pow10((s.len() - 1) as nat),
                digit_val(s.last()) <= 9,
                pow10(s.len()) == 10 * pow10((s.len() - 1) as nat),
        ;
    }
}

/// The first nine powers of ten, spelled out.
proof fn lemma_pow10_table()
    ensures
        pow10(0) == 1,
        pow10(1) == 10,
        pow10(2) == 100,
        pow10(3) == 1000,
        pow10(4) == 10000,
        pow10(5) == 100000,
        pow10(6) == 1000000,
        pow10(7) == 10000000,
        pow10(8) == 100000000,
        pow10(9) == 1000000000,
{
    reveal_with_fuel(pow10, 11);
}

/// Ten to the `k`, for small `k`.
fn pow10_u64(k: u64) -> (r: u64)
    requires
        k <= 9,
    ensures
        r as int == pow10(k as nat),
{
    proof {
        lemma_pow10_table();
    }
    if k == 0 {
        1
    } else if k == 1 {
        10
    } else if k == 2 {
        100
    } else if k == 3 {
        1000
    } else if k == 4 {
        10000
    } else if k == 5 {
        100000
    } else if k == 6 {
        1000000
    } else if k == 7 {
        10000000
    } else if k == 8 {
        100000000
    } else {
        1000000000
    }
}

/// Once an all-digit prefix of the body exceeds the 64-bit cap, the whole
/// literal's value does too, whatever follows: the text is rejected.
proof fn lemma_overflow_means_none(body: Seq<char>, plen: int)
    requires
        0 <= plen <= body.len(),
        all_digits(body.take(plen)),
        forall|i: int| 0 <= i < plen ==> body[i] != '.',
        digits_val(body.take(plen)) > 0x7fff_ffff_ffff_ffff,
    ensures
        body_val(body) matches Option::Some(v) ==> v > 0x7fff_ffff_ffff_ffff,
{
    lemma_dot_props(body);
    match dot_pos(body) {
        Option::None => {
            if body.len() > 0 && all_digits(body) {
                lemma_digits_val_prefix(body, plen);
                assert(body.take(plen) =~= body.take(plen));
                lemma_digits_val_nonneg(body);
                assert(digits_val(body) * NANO >= digits_val(body)) by (nonlinear_arith)
                    requires
                        digits_val(body) >= 0,
                ;
            }
        },
        Option::Some(i) => {
            let ip = body.subrange(0, i);
            let fp = body.subrange(i + 1, body.len() as int);
            if all_digits(ip) && all_digits(fp) && fp.len() <= 9 && ip.len() + fp.len() >= 1 {
                assert(body[i] == '.');
                assert(i >= plen);
                assert(ip.take(plen) =~= body.take(plen));
                lemma_digits_val_prefix(ip, plen);
                lemma_digits_val_nonneg(ip);
                lemma_digits_val_nonneg(fp);
                assert(pow10((9 - fp.len()) as nat) >= 1) by {
                    lemma_pow10_pos((9 - fp.len()) as nat);
                }
                assert(digits_val(ip) * NANO >= digits_val(ip)) by (nonlinear_arith)
                    requires
                        digits_val(ip) >= 0,
                ;
                assert(digits_val(fp) * pow10((9 - fp.len()) as nat) >= 0) by (nonlinear_arith)
                    requires
                        digits_val(fp) >= 0,
                        pow10((9 - fp.len()) as nat) >= 1,
                ;
            }
        },
    }
}

/// Powers of ten are positive.
proof fn lemma_pow10_pos(k: nat)
    ensures
        pow10(k) >= 1,
    decreases k,
{
    if k > 0 {
        lemma_pow10_pos((k - 1) as nat);
        assert(10 * pow10((k - 1) as nat) >= 1) by (nonlinear_arith)
            requires
                pow10((k - 1) as nat) >= 1,
        ;
    }
}

/// Parses one signed decimal literal held in `v[start..end]`.
#[verifier::rlimit(80)]
pub fn parse_fixed(v: &Vec<char>, start: usize, end: usize) -> (r: Option<i64>)
    requires
        start <= end <= v@.len(),
    ensures
        r == fixed_val(v@.subrange(start as int, end as int)),
{
    let ghost s = v@.subrange(start as int, end as int);
    if start == end {
        proof {
            assert(dot_pos(s) is None);
        }
        return None;
    }
    let c0 = v[start];
    let (neg, bstart) = if c0 == '-' {
        (true, start + 1)
    } else if c0 == '+' {
        (false, start + 1)
    } else {
        (false, start)
    };
    let ghost body = v@.subrange(bstart as int, end as int);
    proof {
        if c0 == '-' || c0 == '+' {
            assert(body =~= s.drop_first());
        } else {
            assert(body =~= s);
        }
    }
    let (ival, ipos, iovf) = scan_digits(v, bstart, end);
    proof {
        assert(forall|i: int|
            bstart <= i < ipos ==> is_dec_digit(#[trigger] v@[i]) && v@[i] != '.');
    }
    if iovf {
        proof {
            assert(body.take(ipos - bstart) =~= v@.subrange(bstart as int, ipos as int));
            lemma_overflow_means_none(body, ipos - bstart);
            if body_val(body) is Some {
                let bv = body_val(body)->Some_0;
                assert(bv > 0x7fff_ffff_ffff_ffff);
            }
        }
        return None;
    }
    if ipos == end {
        if bstart == end {
            proof {
                assert(body.len() == 0);
                assert(dot_pos(body) is None);
            }
            return None;
        }
        proof {
            assert(all_digits(body)) by {
                assert(forall|i: int|
                    0 <= i < body.len() ==> body[i] == v@[bstart + i] && is_dec_digit(
                        #[trigger] body[i],
                    ) == is_dec_digit(v@[bstart + i]));
            }
            lemma_dot_props(body);
            if dot_pos(body) is Some {
                let di = dot_pos(body)->Some_0;
                assert(is_dec_digit(body[di]));
                assert(false);
            }
            assert(body =~= v@.subrange(bstart as int, ipos as int));
            lemma_digits_val_nonneg(body);
        }
        let prod: u128 = (ival as u128) * (NANO as u128);
        proof {
            assert((ival as int) * (NANO as int) == prod as int) by (nonlinear_arith)
                requires
                    0 <= ival <= 0x7fff_ffff_ffff_ffff,
                    prod as int == (ival as int) * (1000000000int),
                    NANO == 1000000000i64,
            ;
        }
        if prod > 0x7fff_ffff_ffff_ffffu128 {
            return None;
        }
        let val = prod as i64;
        if neg {
            let nval = 0i64 - val;
            return Some(nval);
        } else {
            return Some(val);
        }
    }
    // a non-digit stopped the scan before the end
    let cd = v[ipos];
    if cd != '.' {
        proof {
            lemma_not_number(body, ipos - bstart);
        }
        return None;
    }
    // fraction part
    let flen = end - (ipos + 1);
    let ghost ip = body.subrange(0, ipos - bstart);
    let ghost fp = body.subrange(ipos - bstart + 1, body.len() as int);
    proof {
        assert(body[ipos - bstart] == '.');
        lemma_dot_here(body, ipos - bstart);
        assert(ip =~= v@.subrange(bstart as int, ipos as int));
        assert(fp =~= v@.subrange(ipos + 1, end as int));
    }
    if flen > 9 {
        return None;
    }
    if bstart == ipos && flen == 0 {
        return None;
    }
    let (fval, fpos, fovf) = scan_digits(v, ipos + 1, end);
    proof {
        if fovf {
            let pre = v@.subrange(ipos + 1, fpos as int);
            assert(all_digits(pre)) by {
                assert(forall|i: int|
                    0 <= i < pre.len() ==> pre[i] == v@[ipos + 1 + i] && is_dec_digit(
                        #[trigger] pre[i],
                    ) == is_dec_digit(v@[ipos + 1 + i]));
            }
            lemma_digits_val_upper(pre);
            lemma_pow10_table();
            lemma_pow10_mono(pre.len(), 9nat);
            assert(false);
        }
    }
    if fpos != end {
        proof {
            assert(!is_dec_digit(fp[fpos - (ipos + 1)]));
        }
        return None;
    }
    proof {
        assert(all_digits(fp)) by {
            assert(forall|i: int|
                0 <= i < fp.len() ==> fp[i] == v@[ipos + 1 + i] && is_dec_digit(#[trigger] fp[i])
                    == is_dec_digit(v@[ipos + 1 + i]));
        }
        assert(fval as int == digits_val(fp));
        assert(all_digits(ip));
        assert(ival as int == digits_val(ip));
        lemma_digits_val_nonneg(ip);
        lemma_digits_val_nonneg(fp);
        lemma_digits_val_upper(fp);
        lemma_pow10_table();
    }
    let scale = pow10_u64(9 - (flen as u64));
    proof {
        lemma_pow10_mono((9 - fp.len()) as nat, 9nat);
        assert((fval as int) * (scale as int) <= 0xffff_ffff_ffff_ffff * 1000000000)
            by (nonlinear_arith)
            requires
                fval <= 0xffff_ffff_ffff_ffffu64,
                scale <= 1000000000u64,
        ;
    }
    let frac_scaled: u128 = (fval as u128) * (scale as u128);
    let prod: u128 = (ival as u128) * (NANO as u128) + frac_scaled;
    proof {
        assert((ival as int) * (NANO as int) <= 0x7fff_ffff_ffff_ffff * 1000000000)
            by (nonlinear_arith)
            requires
                0 <= ival <= 0x7fff_ffff_ffff_ffff,
                NANO == 1000000000i64,
        ;
    }
    if prod > 0x7fff_ffff_ffff_ffffu128 {
        return None;
    }
    let val = prod as i64;
    if neg {
        let nval = 0i64 - val;
        Some(nval)
    } else {
        Some(val)
    }
}

/// Powers of ten grow with the exponent, and split multiplicatively.
proof fn lemma_pow10_mono(a: nat, b: nat)
    requires
        a <= b,
    ensures
        pow10(a) <= pow10(b),
        pow10(a) * pow10((b - a) as nat) == pow10(b),
    decreases b,
{
    if a < b {
        lemma_pow10_mono(a, (b - 1) as nat);
        lemma_pow10_pos(a);
        lemma_pow10_pos((b - 1) as nat);
        assert(pow10(a) <= 10 * pow10((b - 1) as nat)) by (nonlinear_arith)
            requires
                pow10(a) <= pow10((b - 1) as nat),
                pow10((b - 1) as nat) >= 1,
        ;
        assert(pow10((b - a) as nat) == 10 * pow10((b - a - 1) as nat));
        assert(pow10(a) * (10 * pow10((b - a - 1) as nat)) == 10 * (pow10(a) * pow10((b - a - 1) as nat)))
            by (nonlinear_arith)
        ;
    } else {
        assert(pow10((b - a) as nat) == 1);
        assert(pow10(a) * 1 == pow10(a)) by (nonlinear_arith);
    }
}

/// A body whose scan stopped at a character that is neither a digit nor the
/// first dot is not a number.
proof fn lemma_not_number(body: Seq<char>, p: int)
    requires
        0 <= p < body.len(),
        forall|i: int| 0 <= i < p ==> is_dec_digit(#[trigger] body[i]) && body[i] != '.',
        !is_dec_digit(body[p]),
        body[p] != '.',
    ensures
        body_val(body) is None,
{
    lemma_dot_props(body);
    match dot_pos(body) {
        Option::None => {
            assert(!all_digits(body));
        },
        Option::Some(i) => {
            assert(body[i] == '.');
            assert(i > p);
            let ip = body.subrange(0, i);
            assert(!is_dec_digit(ip[p]));
            assert(!all_digits(ip));
        },
    }
}

/// When the first dot of the body sits at `p`, the spec splits there.
proof fn lemma_dot_here(body: Seq<char>, p: int)
    requires
        0 <= p < body.len(),
        forall|i: int| 0 <= i < p ==> #[trigger] body[i] != '.',
        body[p] == '.',
    ensures
        dot_pos(body) == Some(p),
    decreases p,
{
    if p == 0 {
    } else {
        assert(body[0] != '.');
        lemma_dot_here(body.drop_first(), p - 1);
        assert(forall|j: int| 0 <= j < body.len() - 1 ==> body.drop_first()[j] == body[j + 1]);
    }
}

/// The `k`-digit zero-padded decimal text of a value below ten to the `k`.
pub open spec fn pad_digits(n: int, k: nat) -> Seq<char>
    decreases k,
{
    if k == 0 {
        Seq::empty()
    } else {
        pad_digits(n / 10, (k - 1) as nat).push(digit_of(n % 10))
    }
}

/// The text with its trailing zeros removed.
pub open spec fn strip_zeros(s: Seq<char>) -> Seq<char>
    decreases s.len(),
{
    if s.len() > 0 && s.last() == '0' {
        strip_zeros(s.drop_last())
    } else {
        s
    }
}

/// The decimal text of a nano-unit value: sign, whole part, and, when the
/// fraction is not zero, a dot and the fraction digits without trailing
/// zeros.
pub open spec fn fmt_fixed(v: int) -> Seq<char> {
    let a = if v < 0 {
        -v
    } else {
        v
    };
    let ip = a / (NANO as int);
    let fr = a % (NANO as int);
    let sign: Seq<char> = if v < 0 {
        seq!['-']
    } else {
        Seq::empty()
    };
    if fr == 0 {
        sign + dec_digits(ip)
    } else {
        sign + dec_digits(ip) + seq!['.'] + strip_zeros(pad_digits(fr, 9))
    }
}

/// Appends the `k` zero-padded digits of `n`.
fn push_padded(n: u64, k: u64, out: &mut Vec<char>)
    requires
        k <= 9,
    ensures
        final(out)@ == old(out)@ + pad_digits(n as int, k as nat),
    decreases k,
{
    if k == 0 {
        proof {
            assert(out@ =~= old(out)@ + pad_digits(n as int, 0));
        }
    } else {
        push_padded(n / 10, k - 1, out);
        out.push(digit_char(n % 10));
        proof {
            assert(out@ =~= old(out)@ + pad_digits(n as int, k as nat));
        }
    }
}

/// The decimal text of a signed nano-unit value.
pub fn format_fixed(v: i64) -> (r: String)
    requires
        v > i64::MIN,
    ensures
        r@ == fmt_fixed(v as int),
{
    let a: u64 = if v < 0 {
        (-v) as u64
    } else {
        v as u64
    };
    let ip: u64 = a / (NANO as u64);
    let fr: u64 = a % (NANO as u64);
    let mut out: Vec<char> = Vec::new();
    if v < 0 {
        out.push('-');
    }
    crate::text::push_u64_digits(ip, &mut out);
    if fr > 0 {
        out.push('.');
        let mut frac: Vec<char> = Vec::new();
        push_padded(fr, 9, &mut frac);
        let ghost padded = pad_digits(fr as int, 9);
        while frac.len() > 0 && frac[frac.len() - 1] == '0'
            invariant
                strip_zeros(frac@) == strip_zeros(padded),
            decreases frac@.len(),
        {
            let ghost pre = frac@;
            frac.pop();
            proof {
                assert(frac@ =~= pre.drop_last());
            }
        }
        proof {
            assert(strip_zeros(frac@) == frac@);
        }
        let mut i: usize = 0;
        let ghost before = out@;
        while i < frac.len()
            invariant
                0 <= i <= frac@.len(),
                out@ =~= before + frac@.take(i as int),
            decreases frac@.len() - i,
        {
            out.push(frac[i]);
            i += 1;
        }
        proof {
            assert(out@ =~= before + frac@);
            assert(out@ =~= fmt_fixed(v as int));
        }
    } else {
        proof {
            assert(out@ =~= fmt_fixed(v as int));
        }
    }
    crate::text::string_from_chars(&out)
}

/// The digit text of a number reads back as that number, and is made of
/// digits only.
pub proof fn lemma_dec_digits_val(n: int)
    requires
        n >= 0,
    ensures
        all_digits(dec_digits(n)),
        digits_val(dec_digits(n)) == n,
        dec_digits(n).len() >= 1,
    decreases n,
{
    if n < 10 {
        let s = dec_digits(n);
        assert(s == seq![digit_of(n)]);
        assert(s.drop_last() =~= Seq::<char>::empty());
        assert(digit_val(digit_of(n)) == n);
        assert(digits_val(s.drop_last()) == 0);
        assert(digits_val(s) == digits_val(s.drop_last()) * 10 + digit_val(s.last()));
        assert(0 * 10 + n == n) by (nonlinear_arith);
    } else {
        lemma_dec_digits_val(n / 10);
        let s = dec_digits(n);
        let p = dec_digits(n / 10);
        assert(s == p.push(digit_of(n % 10)));
        assert(s.drop_last() =~= p);
        assert(digit_val(digit_of(n % 10)) == n % 10);
        vstd::arithmetic::div_mod::lemma_fundamental_div_mod(n, 10);
        assert(digits_val(s) == digits_val(p) * 10 + digit_val(s.last()));
        assert(digits_val(p) * 10 == 10 * (n / 10)) by (nonlinear_arith)
            requires
                digits_val(p) == n / 10,
        ;
        assert(all_digits(s)) by {
            assert(forall|i: int|
                0 <= i < p.len() ==> #[trigger] s[i] == p[i]);
        }
    }
}

/// The zero-padded digit text of a number reads back as that number.
proof fn lemma_pad_digits_val(n: int, k: nat)
    requires
        0 <= n < pow10(k),
    ensures
        all_digits(pad_digits(n, k)),
        digits_val(pad_digits(n, k)) == n,
        pad_digits(n, k).len() == k,
    decreases k,
{
    if k == 0 {
    } else {
        vstd::arithmetic::div_mod::lemma_fundamental_div_mod(n, 10);
        assert(0 <= n / 10 < pow10((k - 1) as nat)) by (nonlinear_arith)
            requires
                0 <= n < pow10(k),
                pow10(k) == 10 * pow10((k - 1) as nat),
                n == 10 * (n / 10) + n % 10,
                0 <= n % 10 < 10,
        ;
        lemma_pad_digits_val(n / 10, (k - 1) as nat);
        let s = pad_digits(n, k);
        let p = pad_digits(n / 10, (k - 1) as nat);
        assert(s == p.push(digit_of(n % 10)));
        assert(s.drop_last() =~= p);
        assert(digit_val(digit_of(n % 10)) == n % 10);
        assert(all_digits(s)) by {
            assert(forall|i: int| 0 <= i < p.len() ==> #[trigger] s[i] == p[i]);
        }
    }
}

/// Stripping trailing zeros scales the value down by the powers of ten it
/// removes, keeps only digits, and cannot grow the text.
proof fn lemma_strip_zeros_val(s: Seq<char>)
    requires
        all_digits(s),
    ensures
        all_digits(strip_zeros(s)),
        strip_zeros(s).len() <= s.len(),
        digits_val(strip_zeros(s)) * pow10((s.len() - strip_zeros(s).len()) as nat) == digits_val(
            s,
        ),
        digits_val(s) != 0 ==> strip_zeros(s).len() >= 1,
    decreases s.len(),
{
    if s.len() > 0 && s.last() == '0' {
        assert(all_digits(s.drop_last())) by {
            assert(forall|i: int|
                0 <= i < s.len() - 1 ==> #[trigger] s.drop_last()[i] == s[i]);
        }
        lemma_strip_zeros_val(s.drop_last());
        let d = s.drop_last();
        let t = strip_zeros(s);
        assert(digit_val('0') == 0);
        assert(digits_val(s) == digits_val(d) * 10);
        let e = (d.len() - t.len()) as nat;
        assert(pow10((e + 1) as nat) == 10 * pow10(e));
        assert(digits_val(t) * pow10((e + 1) as nat) == digits_val(t) * pow10(e) * 10)
            by (nonlinear_arith)
            requires
                pow10((e + 1) as nat) == 10 * pow10(e),
        ;
        lemma_digits_val_nonneg(d);
        if digits_val(s) != 0 {
            assert(digits_val(d) != 0) by (nonlinear_arith)
                requires
                    digits_val(s) == digits_val(d) * 10,
                    digits_val(s) != 0,
            ;
        }
    } else {
        assert(pow10(0) == 1);
        assert(digits_val(strip_zeros(s)) * 1 == digits_val(s)) by (nonlinear_arith)
            requires
                strip_zeros(s) == s,
        ;
    }
}

/// Digits are not signs, dots or commas.
proof fn lemma_digit_chars_plain(s: Seq<char>)
    requires
        all_digits(s),
    ensures
        forall|i: int|
            0 <= i < s.len() ==> #[trigger] s[i] != '.' && s[i] != ',' && s[i] != '-' && s[i]
                != '+' && !crate::cli::is_blank(s[i]),
{
    assert forall|i: int|
        0 <= i < s.len() implies #[trigger] s[i] != '.' && s[i] != ',' && s[i] != '-' && s[i]
        != '+' && !crate::cli::is_blank(s[i]) by {
        assert(is_dec_digit(s[i]));
    }
}

/// Every character of a formatted number is a digit, a minus or a dot, and
/// the text starts with a minus or a digit and ends with a digit.
pub proof fn lemma_fmt_fixed_chars(v: int)
    ensures
        ({
            let s = fmt_fixed(v);
            &&& s.len() >= 1
            &&& forall|i: int|
                0 <= i < s.len() ==> is_dec_digit(#[trigger] s[i]) || s[i] == '-' || s[i] == '.'
            &&& is_dec_digit(s.last())
            &&& (is_dec_digit(s[0]) || s[0] == '-')
        }),
{
    let a = if v < 0 {
        -v
    } else {
        v
    };
    let ip = a / (NANO as int);
    let fr = a % (NANO as int);
    vstd::arithmetic::div_mod::lemma_fundamental_div_mod(a, NANO as int);
    assert(0 <= fr < NANO as int) by {
        vstd::arithmetic::div_mod::lemma_mod_bound(a, NANO as int);
    }
    assert(ip >= 0) by {
        vstd::arithmetic::div_mod::lemma_div_pos_is_pos(a, NANO as int);
    }
    lemma_dec_digits_val(ip);
    if fr != 0 {
        lemma_pow10_table();
        lemma_pad_digits_val(fr, 9);
        lemma_strip_zeros_val(pad_digits(fr, 9));
        let fp = strip_zeros(pad_digits(fr, 9));
        assert(digits_val(fp) != 0) by {
            lemma_pow10_pos((9 - fp.len()) as nat);
            assert(digits_val(fp) * pow10((9 - fp.len()) as nat) == fr) by {
                lemma_pow10_mono((9 - fp.len()) as nat, 9nat);
            }
            if digits_val(fp) == 0 {
                assert(0 * pow10((9 - fp.len()) as nat) == 0) by (nonlinear_arith);
            }
        }
        assert(fp.len() >= 1);
        assert(is_dec_digit(fp.last()));
        assert(fmt_fixed(v).last() == fp.last());
    }
}

/// A formatted number parses back to the same value.
pub proof fn lemma_fixed_roundtrip(v: i64)
    requires
        v > i64::MIN,
    ensures
        fixed_val(fmt_fixed(v as int)) == Some(v),
{
    let a: int = if v < 0 {
        -(v as int)
    } else {
        v as int
    };
    let ip = a / (NANO as int);
    let fr = a % (NANO as int);
    vstd::arithmetic::div_mod::lemma_fundamental_div_mod(a, NANO as int);
    vstd::arithmetic::div_mod::lemma_mod_bound(a, NANO as int);
    vstd::arithmetic::div_mod::lemma_div_pos_is_pos(a, NANO as int);
    lemma_dec_digits_val(ip);
    lemma_digit_chars_plain(dec_digits(ip));
    let s = fmt_fixed(v as int);
    let digits_ip = dec_digits(ip);
    let body: Seq<char> = if fr == 0 {
        digits_ip
    } else {
        digits_ip + seq!['.'] + strip_zeros(pad_digits(fr, 9))
    };
    assert(s =~= (if v < 0 {
        seq!['-']
    } else {
        Seq::<char>::empty()
    }) + body);
    if v < 0 {
        assert(s[0] == '-');
        assert(s.drop_first() =~= body);
    } else {
        assert(s =~= body);
        assert(s.len() > 0 && is_dec_digit(s[0]));
        assert(s[0] != '-' && s[0] != '+');
    }
    // the body parses to a * NANO-units
    if fr == 0 {
        lemma_dot_props(body);
        if dot_pos(body) is Some {
            let di = dot_pos(body)->Some_0;
            assert(is_dec_digit(body[di]));
            assert(false);
        }
        assert(body_val(body) == Some(digits_val(digits_ip) * (NANO as int)));
        assert(ip * (NANO as int) == a);
    } else {
        lemma_pow10_table();
        lemma_pad_digits_val(fr, 9);
        lemma_strip_zeros_val(pad_digits(fr, 9));
        let fp = strip_zeros(pad_digits(fr, 9));
        lemma_digit_chars_plain(fp);
        let dlen = digits_ip.len() as int;
        assert(body[dlen] == '.');
        assert(forall|i: int| 0 <= i < dlen ==> #[trigger] body[i] != '.');
        lemma_dot_here(body, dlen);
        assert(body.subrange(0, dlen) =~= digits_ip);
        assert(body.subrange(dlen + 1, body.len() as int) =~= fp);
        assert(fp.len() >= 1) by {
            assert(digits_val(pad_digits(fr, 9)) == fr);
        }
        assert(digits_val(fp) * pow10((9 - fp.len()) as nat) == fr) by {
            let e = (9 - fp.len()) as nat;
            lemma_pow10_mono(e, 9nat);
            assert(digits_val(fp) * pow10((pad_digits(fr, 9).len() - fp.len()) as nat)
                == digits_val(pad_digits(fr, 9)));
        }
        assert(body_val(body) == Some(digits_val(digits_ip) * (NANO as int) + digits_val(fp)
            * pow10((9 - fp.len()) as nat)));
        assert(ip * (NANO as int) + fr == a);
    }
    assert(body_val(body) == Some(a));
    if v < 0 {
        assert(fixed_val(s) == Some((-a) as i64));
        assert(-a == v as int);
    } else {
        assert(fixed_val(s) == Some(a as i64));
    }
}

/// A digit prefix bound stated on subranges: once some prefix of a digit
/// run exceeds the cap, any longer all-digit run exceeds it too.
proof fn lemma_digits_val_prefix_general(s: Seq<char>, start: int, mid: int, end: int)
    requires
        0 <= start <= mid <= end <= s.len(),
        digits_val(s.subrange(start, mid)) > 0x7fff_ffff_ffff_ffff,
    ensures
        forall|e2: int|
            mid <= e2 <= end && all_digits(s.subrange(start, e2)) ==> digits_val(
                #[trigger] s.subrange(start, e2),
            ) > 0x7fff_ffff_ffff_ffff,
{
    assert forall|e2: int|
        mid <= e2 <= end && all_digits(s.subrange(start, e2)) implies digits_val(
        s.subrange(start, e2),
    ) > 0x7fff_ffff_ffff_ffff by {
        let w = s.subrange(start, e2);
        assert(w.take(mid - start) =~= s.subrange(start, mid));
        lemma_digits_val_prefix(w, mid - start);
    }
}

} // verus!
