//! The duration codec.
//!
//! A duration is held exactly, as a whole number of nanoseconds (`u64`).
//! Parsing accepts `:` or `.` between a whole part and a fraction part and
//! reads the fraction verbatim as decimal places — `"3:7"` is 3.7 seconds,
//! not three minutes and seven seconds.  Formatting rounds to the nearest
//! hundredth and renders `"{seconds}:{hundredths:02}"`.  Both directions keep
//! this deliberately naive reading; fraction digits beyond the ninth
//! (sub-nanosecond) are ignored, and a value whose nanoseconds do not fit in
//! `u64` is rejected.

use vstd::prelude::*;
use crate::chars::{is_digit_char, digit_char, string_from_chars, chars_of};
use crate::text::before_first_dot;

verus! {

/// The numeric value of a decimal digit character.
pub open spec fn digit_val(c: char) -> int {
    c as int - '0' as int
}

/// Every character of `s` is a decimal digit.
pub open spec fn digit_seq(s: Seq<char>) -> bool {
    forall|i: int| 0 <= i < s.len() ==> is_digit_char(#[trigger] s[i])
}

/// The number written by the digit characters of `s`, most significant first;
/// an empty sequence writes zero.
pub open spec fn digits_val(s: Seq<char>) -> int
    decreases s.len(),
{
    if s.len() == 0 {
        0
    } else {
        digits_val(s.drop_last()) * 10 + digit_val(s.last())
    }
}

/// Ten to the power `k`.
pub open spec fn pow10(k: nat) -> int
    decreases k,
{
    if k == 0 {
        1
    } else {
        10 * pow10((k - 1) as nat)
    }
}

pub proof fn lemma_pow10_pos(k: nat)
    ensures
        pow10(k) >= 1,
    decreases k,
{
    if k > 0 {
        lemma_pow10_pos((k - 1) as nat);
    }
}

pub proof fn lemma_pow10_add(a: nat, b: nat)
    ensures
        pow10(a + b) == pow10(a) * pow10(b),
    decreases a,
{
    if a == 0 {
    } else {
        lemma_pow10_add((a - 1) as nat, b);
        assert(pow10(a + b) == 10 * pow10((a + b - 1) as nat));
        assert(10 * (pow10((a - 1) as nat) * pow10(b)) == (10 * pow10((a - 1) as nat)) * pow10(b))
            by (nonlinear_arith);
    }
}

pub proof fn lemma_digits_val_bounds(s: Seq<char>)
    requires
        digit_seq(s),
    ensures
        0 <= digits_val(s) < pow10(s.len()),
    decreases s.len(),
{
    if s.len() == 0 {
    } else {
        assert(digit_seq(s.drop_last())) by {
            assert(forall|i: int| 0 <= i < s.len() - 1 ==> s.drop_last()[i] == s[i]);
        }
        lemma_digits_val_bounds(s.drop_last());
        assert(is_digit_char(s.last()));
        assert(0 <= digit_val(s.last()) <= 9);
        assert(digits_val(s.drop_last()) * 10 + 10 <= pow10((s.len() - 1) as nat) * 10) by (nonlinear_arith)
            requires
                digits_val(s.drop_last()) < pow10((s.len() - 1) as nat),
        ;
    }
}

proof fn lemma_digits_val_take(s: Seq<char>, i: int)
    requires
        digit_seq(s),
        0 <= i <= s.len(),
    ensures
        digits_val(s) >= digits_val(s.take(i)) * pow10((s.len() - i) as nat),
        digits_val(s) >= 0,
    decreases s.len() - i,
{
    lemma_digits_val_bounds(s);
    if i == s.len() {
        assert(s.take(i) =~= s);
    } else {
        lemma_digits_val_take(s, i + 1);
        let p = s.take(i);
        let q = s.take(i + 1);
        assert(q.drop_last() =~= p);
        assert(q.last() == s[i]);
        assert(is_digit_char(s[i]));
        assert(0 <= digit_val(s[i]) <= 9);
        assert(digits_val(q) == digits_val(p) * 10 + digit_val(s[i]));
        assert(digits_val(q) >= digits_val(p) * 10);
        assert(digit_seq(p)) by {
            assert(forall|j: int| 0 <= j < i ==> p[j] == s[j]);
        }
        lemma_digits_val_bounds(p);
        lemma_pow10_pos((s.len() - i - 1) as nat);
        assert(digits_val(q) * pow10((s.len() - i - 1) as nat) >= (digits_val(p) * 10) * pow10(
            (s.len() - i - 1) as nat,
        )) by (nonlinear_arith)
            requires
                digits_val(q) >= digits_val(p) * 10,
                pow10((s.len() - i - 1) as nat) >= 1,
        ;
        assert((digits_val(p) * 10) * pow10((s.len() - i - 1) as nat) == digits_val(p) * (10 * pow10(
            (s.len() - i - 1) as nat,
        ))) by (nonlinear_arith);
        assert(10 * pow10((s.len() - i - 1) as nat) == pow10((s.len() - i) as nat));
    }
}

/// `s` with every colon replaced by a full stop.
pub open spec fn colon_to_dot(s: Seq<char>) -> Seq<char> {
    s.map_values(|c: char| if c == ':' { '.' } else { c })
}

/// What parsing a duration string yields, if anything: after turning `:`
/// into `.`, the text before the first `.` is the whole part and the text
/// between the first and second `.` is the fraction part (text after a
/// second `.` is ignored).  Parsing fails when there is no `.` at all, when
/// either part holds a non-digit, when both parts are empty, or when the
/// value does not fit in `u64` nanoseconds.  Fraction digits beyond the
/// ninth are ignored.
pub open spec fn duration_nanos_of(s: Seq<char>) -> Option<u64> {
    let t = colon_to_dot(s);
    let w = before_first_dot(t);
    if w.len() == t.len() {
        None
    } else {
        let f = before_first_dot(t.skip(w.len() as int + 1));
        if !digit_seq(w) || !digit_seq(f) || (w.len() == 0 && f.len() == 0) {
            None
        } else {
            let f9 = if f.len() > 9 {
                f.take(9)
            } else {
                f
            };
            let val = digits_val(w) * 1_000_000_000 + digits_val(f9) * pow10((9 - f9.len()) as nat);
            if val > u64::MAX {
                None
            } else {
                Some(val as u64)
            }
        }
    }
}

/// Parse the digit characters of `s` as a `u64`, or report that the value
/// exceeds `u64::MAX`.
fn parse_digits(s: &Vec<char>) -> (r: Option<u64>)
    requires
        digit_seq(s@),
    ensures
        match r {
            Some(n) => n as int == digits_val(s@),
            None => digits_val(s@) > u64::MAX,
        },
{
    let mut acc: u64 = 0;
    let mut i: usize = 0;
    while i < s.len()
        invariant
            i <= s@.len(),
            digit_seq(s@),
            acc as int == digits_val(s@.take(i as int)),
        decreases s@.len() - i,
    {
        let c = s[i];
        let d: u64 = digit_of_char(c);
        proof {
            assert(s@.take(i as int + 1).drop_last() =~= s@.take(i as int));
            assert(s@.take(i as int + 1).last() == s@[i as int]);
        }
        let shifted = match acc.checked_mul(10) {
            Some(v) => v,
            None => {
                proof {
                    lemma_digits_val_take(s@, i as int + 1);
                    lemma_overflow_take(s@, i as int + 1);
                }
                return None;
            },
        };
        let next = match shifted.checked_add(d) {
            Some(v) => v,
            None => {
                proof {
                    lemma_digits_val_take(s@, i as int + 1);
                    lemma_overflow_take(s@, i as int + 1);
                }
                return None;
            },
        };
        acc = next;
        i = i + 1;
    }
    proof {
        assert(s@.take(s@.len() as int) =~= s@);
    }
    Some(acc)
}

proof fn lemma_overflow_take(s: Seq<char>, i: int)
    requires
        digit_seq(s),
        0 <= i <= s.len(),
        digits_val(s.take(i)) > u64::MAX,
    ensures
        digits_val(s) > u64::MAX,
{
    lemma_digits_val_take(s, i);
    lemma_pow10_pos((s.len() - i) as nat);
    assert(digits_val(s.take(i)) * pow10((s.len() - i) as nat) >= digits_val(s.take(i)) * 1)
        by (nonlinear_arith)
        requires
            pow10((s.len() - i) as nat) >= 1,
            digits_val(s.take(i)) >= 0,
    ;
}

/// The numeric value of a digit character, in executable form.
fn digit_of_char(c: char) -> (r: u64)
    requires
        is_digit_char(c),
    ensures
        r as int == digit_val(c),
        r <= 9,
{
    (c as u32 - '0' as u32) as u64
}

/// Ten to the power `k`, in executable form.
fn pow10_x(k: usize) -> (r: u64)
    requires
        k <= 9,
    ensures
        r as int == pow10(k as nat),
{
    proof {
        reveal_with_fuel(pow10, 11);
    }
    let mut r: u64 = 1;
    let mut i: usize = 0;
    while i < k
        invariant
            i <= k <= 9,
            r as int == pow10(i as nat),
        decreases k - i,
    {
        proof {
            lemma_pow10_mono(i as nat, 8);
            reveal_with_fuel(pow10, 11);
        }
        r = r * 10;
        i = i + 1;
    }
    r
}

proof fn lemma_pow10_mono(a: nat, b: nat)
    requires
        a <= b,
    ensures
        pow10(a) <= pow10(b),
    decreases b,
{
    if a < b {
        lemma_pow10_mono(a, (b - 1) as nat);
        lemma_pow10_pos((b - 1) as nat);
    }
}

/// Parse a duration string into nanoseconds.  Accepts `:` or `.` between the
/// whole and fraction parts and reads the fraction verbatim as decimal
/// places, exactly as [`duration_nanos_of`] states.
pub fn parse_duration(s: &str) -> (r: Option<u64>)
    ensures
        r == duration_nanos_of(s@),
{
    let cs = chars_of(s);
    let mut t: Vec<char> = Vec::new();
    let mut i: usize = 0;
    while i < cs.len()
        invariant
            i <= cs@.len(),
            t@ == colon_to_dot(cs@).take(i as int),
        decreases cs@.len() - i,
    {
        let c = cs[i];
        if c == ':' {
            t.push('.');
        } else {
            t.push(c);
        }
        proof {
            assert(t@ =~= colon_to_dot(cs@).take(i as int + 1));
        }
        i = i + 1;
    }
    proof {
        assert(colon_to_dot(cs@).take(cs@.len() as int) =~= colon_to_dot(cs@));
    }
    let w = crate::text::before_first_dot_x(&t);
    proof {
        lemma_before_dot_len(t@);
    }
    if w.len() == t.len() {
        return None;
    }
    let rest = crate::text::subvec(&t, w.len() + 1, t.len());
    proof {
        assert(rest@ =~= t@.skip(w@.len() as int + 1));
    }
    let f = crate::text::before_first_dot_x(&rest);
    let w_ok = all_digits(&w);
    let f_ok = all_digits(&f);
    if !w_ok || !f_ok || (w.len() == 0 && f.len() == 0) {
        return None;
    }
    let f9 = if f.len() > 9 {
        crate::text::subvec(&f, 0, 9)
    } else {
        f
    };
    proof {
        assert(digit_seq(f9@));
    }
    let whole = match parse_digits(&w) {
        Some(n) => n,
        None => {
            proof {
                lemma_value_needs_whole(w@, f9@);
            }
            return None;
        },
    };
    let whole_nanos = match whole.checked_mul(1_000_000_000) {
        Some(v) => v,
        None => {
            proof {
                lemma_value_needs_whole_nanos(w@, f9@);
            }
            return None;
        },
    };
    let frac = match parse_digits(&f9) {
        Some(n) => n,
        None => {
            proof {
                lemma_digits_val_bounds(f9@);
                lemma_pow10_mono(f9@.len() as nat, 9);
                proof_pow10_9();
            }
            return None;
        },
    };
    let scale = pow10_x(9 - f9.len());
    let frac_nanos = match frac.checked_mul(scale) {
        Some(v) => v,
        None => {
            proof {
                lemma_frac_fits(f9@);
            }
            return None;
        },
    };
    proof {
        lemma_frac_fits(f9@);
    }
    match whole_nanos.checked_add(frac_nanos) {
        Some(total) => Some(total),
        None => None,
    }
}

proof fn proof_pow10_9()
    ensures
        pow10(9) == 1_000_000_000,
{
    reveal_with_fuel(pow10, 11);
}

proof fn lemma_frac_fits(f9: Seq<char>)
    requires
        digit_seq(f9),
        f9.len() <= 9,
    ensures
        digits_val(f9) * pow10((9 - f9.len()) as nat) < 1_000_000_000,
        digits_val(f9) >= 0,
        pow10((9 - f9.len()) as nat) >= 1,
{
    lemma_digits_val_bounds(f9);
    lemma_pow10_pos((9 - f9.len()) as nat);
    lemma_pow10_add(f9.len() as nat, (9 - f9.len()) as nat);
    proof_pow10_9();
    assert(digits_val(f9) * pow10((9 - f9.len()) as nat) <= (pow10(f9.len() as nat) - 1) * pow10(
        (9 - f9.len()) as nat,
    )) by (nonlinear_arith)
        requires
            digits_val(f9) <= pow10(f9.len() as nat) - 1,
            pow10((9 - f9.len()) as nat) >= 1,
    ;
    assert((pow10(f9.len() as nat) - 1) * pow10((9 - f9.len()) as nat) == pow10(f9.len() as nat)
        * pow10((9 - f9.len()) as nat) - pow10((9 - f9.len()) as nat)) by (nonlinear_arith);
}

proof fn lemma_value_needs_whole(w: Seq<char>, f9: Seq<char>)
    requires
        digit_seq(w),
        digit_seq(f9),
        f9.len() <= 9,
        digits_val(w) > u64::MAX,
    ensures
        digits_val(w) * 1_000_000_000 + digits_val(f9) * pow10((9 - f9.len()) as nat) > u64::MAX,
{
    lemma_frac_fits(f9);
    assert(digits_val(w) * 1_000_000_000 >= digits_val(w)) by (nonlinear_arith)
        requires
            digits_val(w) >= 0,
    ;
}

proof fn lemma_value_needs_whole_nanos(w: Seq<char>, f9: Seq<char>)
    requires
        digit_seq(w),
        digit_seq(f9),
        f9.len() <= 9,
        digits_val(w) * 1_000_000_000 > u64::MAX,
    ensures
        digits_val(w) * 1_000_000_000 + digits_val(f9) * pow10((9 - f9.len()) as nat) > u64::MAX,
{
    lemma_frac_fits(f9);
}

/// Every character of `v` is a decimal digit, in executable form.
fn all_digits(v: &Vec<char>) -> (r: bool)
    ensures
        r == digit_seq(v@),
{
    let mut i: usize = 0;
    while i < v.len()
        invariant
            i <= v@.len(),
            forall|j: int| 0 <= j < i ==> is_digit_char(#[trigger] v@[j]),
        decreases v@.len() - i,
    {
        if !digit_char(v[i]) {
            assert(!digit_seq(v@));
            return false;
        }
        i = i + 1;
    }
    true
}

/// The digit character writing the value `d`.
pub open spec fn char_of_digit(d: int) -> char {
    if d == 0 {
        '0'
    } else if d == 1 {
        '1'
    } else if d == 2 {
        '2'
    } else if d == 3 {
        '3'
    } else if d == 4 {
        '4'
    } else if d == 5 {
        '5'
    } else if d == 6 {
        '6'
    } else if d == 7 {
        '7'
    } else if d == 8 {
        '8'
    } else {
        '9'
    }
}

fn char_of_digit_x(d: u64) -> (r: char)
    requires
        d <= 9,
    ensures
        r == char_of_digit(d as int),
{
    match d {
        0 => '0',
        1 => '1',
        2 => '2',
        3 => '3',
        4 => '4',
        5 => '5',
        6 => '6',
        7 => '7',
        8 => '8',
        _ => '9',
    }
}

/// The decimal writing of `n`, without leading zeroes (just `"0"` for zero).
pub open spec fn dec_rep(n: int) -> Seq<char>
    decreases n,
{
    if n <= 9 {
        seq![char_of_digit(n)]
    } else {
        dec_rep(n / 10).push(char_of_digit(n % 10))
    }
}

/// The value formatted, rounded to the nearest hundredth of a second:
/// whole seconds, a colon, and exactly two hundredth digits.
pub open spec fn hundredths_of(nanos: u64) -> int {
    nanos as int / 10_000_000 + if nanos as int % 10_000_000 >= 5_000_000 {
        1int
    } else {
        0int
    }
}

/// The character sequence `format_duration` renders.
pub open spec fn format_rep(nanos: u64) -> Seq<char> {
    let h = hundredths_of(nanos);
    dec_rep(h / 100) + seq![':'] + seq![char_of_digit(h % 100 / 10), char_of_digit(h % 10)]
}

/// Write `n` in decimal.
fn dec_digits(n: u64) -> (r: Vec<char>)
    ensures
        r@ == dec_rep(n as int),
{
    let mut digs: Vec<char> = Vec::new();
    let mut m: u64 = n;
    digs.push(char_of_digit_x(m % 10));
    m = m / 10;
    while m > 0
        invariant
            m > 0 ==> dec_rep(n as int) == dec_rep(m as int) + digs@,
            m == 0 ==> dec_rep(n as int) == digs@,
            digs@.len() >= 1,
        decreases m,
    {
        proof {
            assert(dec_rep(m as int) == dec_rep(m as int / 10).push(char_of_digit(m as int % 10))
                || m <= 9);
            if m <= 9 {
                assert(dec_rep(m as int) == seq![char_of_digit(m as int)]);
            }
        }
        let d = char_of_digit_x(m % 10);
        digs.insert(0, d);
        proof {
            if m > 9 {
                assert(dec_rep(m as int / 10) + (seq![char_of_digit(m as int % 10)] + digs@.drop_first())
                    =~= (dec_rep(m as int / 10).push(char_of_digit(m as int % 10))) + digs@.drop_first());
                assert(digs@ =~= seq![char_of_digit(m as int % 10)] + digs@.drop_first());
            } else {
                assert(digs@ =~= seq![char_of_digit(m as int)] + digs@.drop_first());
            }
        }
        m = m / 10;
    }
    digs
}

/// Format a duration, as nanoseconds, into the `"{seconds}:{hundredths:02}"`
/// display form, rounding to the nearest hundredth (half away from zero).
pub fn format_duration(nanos: u64) -> (r: String)
    ensures
        r@ == format_rep(nanos),
{
    let mut h: u64 = nanos / 10_000_000;
    if nanos % 10_000_000 >= 5_000_000 {
        h = h + 1;
    }
    proof {
        assert(h as int == hundredths_of(nanos));
    }
    let secs = h / 100;
    let rem = h % 100;
    let mut out = dec_digits(secs);
    out.push(':');
    out.push(char_of_digit_x(rem / 10));
    out.push(char_of_digit_x(rem % 10));
    proof {
        assert(h as int / 100 == secs as int);
        assert(h as int % 100 / 10 == rem as int / 10);
        assert(h as int % 10 == rem as int % 10) by (nonlinear_arith)
            requires
                rem == h % 100,
        ;
        assert(out@ =~= format_rep(nanos));
    }
    let r = string_from_chars(&out);
    r
}

/// The whole story of `format(parse(x))` on canonical input: a string written
/// as a decimal whole part, a colon, and exactly two fraction digits parses to
/// `whole` seconds plus the two digits read as hundredths, and formatting that
/// value prints the original string back.  The round trip is exact only on
/// this canonical `"S:FF"` shape; in general the codec is asymmetric.
pub proof fn lemma_format_parse_round_trip(n: u64, d1: char, d2: char)
    requires
        n <= 18_000_000_000,
        is_digit_char(d1),
        is_digit_char(d2),
    ensures
        duration_nanos_of(dec_rep(n as int) + seq![':'] + seq![d1, d2]) == Some(
            (n * 1_000_000_000 + (digit_val(d1) * 10 + digit_val(d2)) * 10_000_000) as u64,
        ),
        format_rep(
            (n * 1_000_000_000 + (digit_val(d1) * 10 + digit_val(d2)) * 10_000_000) as u64,
        ) == dec_rep(n as int) + seq![':'] + seq![d1, d2],
{
    let x = dec_rep(n as int) + seq![':'] + seq![d1, d2];
    lemma_dec_rep_digits(n as int);
    lemma_parse_canonical(n, d1, d2);
    lemma_format_canonical(n, d1, d2);
}

proof fn lemma_dec_rep_digits(n: int)
    requires
        n >= 0,
    ensures
        digit_seq(dec_rep(n)),
        dec_rep(n).len() >= 1,
        digits_val(dec_rep(n)) == n,
    decreases n,
{
    if n <= 9 {
        assert(dec_rep(n) =~= seq![char_of_digit(n)]);
        assert(is_digit_char(char_of_digit(n)));
        assert(digit_val(char_of_digit(n)) == n);
        assert(seq![char_of_digit(n)].drop_last() =~= Seq::<char>::empty());
        assert(digits_val(Seq::<char>::empty()) == 0);
        assert(digits_val(dec_rep(n)) == 0 * 10 + digit_val(char_of_digit(n)));
    } else {
        lemma_dec_rep_digits(n / 10);
        let r = dec_rep(n / 10).push(char_of_digit(n % 10));
        assert(forall|i: int| 0 <= i < r.len() - 1 ==> r[i] == dec_rep(n / 10)[i]);
        assert(r.last() == char_of_digit(n % 10));
        assert(is_digit_char(char_of_digit(n % 10)) && digit_val(char_of_digit(n % 10)) == n % 10);
        assert(r.drop_last() =~= dec_rep(n / 10));
        assert(digits_val(r) == (n / 10) * 10 + n % 10);
    }
}

proof fn lemma_parse_canonical(n: u64, d1: char, d2: char)
    requires
        n <= 18_000_000_000,
        is_digit_char(d1),
        is_digit_char(d2),
    ensures
        duration_nanos_of(dec_rep(n as int) + seq![':'] + seq![d1, d2]) == Some(
            (n * 1_000_000_000 + (digit_val(d1) * 10 + digit_val(d2)) * 10_000_000) as u64,
        ),
{
    let w0 = dec_rep(n as int);
    let x = w0 + seq![':'] + seq![d1, d2];
    lemma_dec_rep_digits(n as int);
    let t = colon_to_dot(x);
    assert(t.len() == x.len());
    assert(forall|i: int| 0 <= i < w0.len() ==> t[i] == x[i] && x[i] == w0[i]);
    assert(x[w0.len() as int] == ':');
    assert(t[w0.len() as int] == '.');
    assert(forall|i: int| 0 <= i < w0.len() ==> #[trigger] t[i] != '.') by {
        assert(forall|i: int| 0 <= i < w0.len() ==> is_digit_char(#[trigger] t[i]));
    }
    lemma_before_dot_prefix(t, w0.len() as int);
    assert(before_first_dot(t) =~= w0);
    let rest = t.skip(w0.len() as int + 1);
    assert(rest =~= seq![t[w0.len() as int + 1], t[w0.len() as int + 2]]);
    assert(x[w0.len() as int + 1] == d1 && x[w0.len() as int + 2] == d2);
    assert(rest[0] == d1 && rest[1] == d2);
    assert(d1 != '.' && d2 != '.');
    lemma_before_dot_prefix(rest, 2);
    assert(before_first_dot(rest) =~= rest);
    let f = rest;
    assert(digit_seq(f));
    assert(digit_seq(w0));
    assert(w0.len() >= 1);
    let f9 = f;
    assert(f9.len() == 2);
    assert(digits_val(f9) == digit_val(d1) * 10 + digit_val(d2)) by {
        assert(f9.drop_last() =~= seq![d1]);
        assert(f9.last() == d2);
        assert(seq![d1].drop_last() =~= Seq::<char>::empty());
        assert(digits_val(Seq::<char>::empty()) == 0);
        assert(digits_val(seq![d1]) == 0 * 10 + digit_val(d1));
    }
    assert(pow10(7) == 10_000_000) by {
        reveal_with_fuel(pow10, 8);
    }
    let val = digits_val(w0) * 1_000_000_000 + digits_val(f9) * pow10(7);
    assert(digits_val(w0) == n as int);
    assert(0 <= digit_val(d1) <= 9 && 0 <= digit_val(d2) <= 9);
    assert(val <= 18_000_000_000 * 1_000_000_000 + 99 * 10_000_000) by (nonlinear_arith)
        requires
            digits_val(w0) <= 18_000_000_000,
            digits_val(w0) == n as int,
            val == digits_val(w0) * 1_000_000_000 + digits_val(f9) * pow10(7),
            digits_val(f9) <= 99,
            pow10(7) == 10_000_000,
            digits_val(f9) >= 0,
    ;
    assert(val <= u64::MAX);
}

proof fn lemma_before_dot_len(t: Seq<char>)
    ensures
        before_first_dot(t).len() <= t.len(),
    decreases t.len(),
{
    if t.len() > 0 && t[0] != '.' {
        lemma_before_dot_len(t.drop_first());
    }
}

proof fn lemma_before_dot_prefix(t: Seq<char>, k: int)
    requires
        0 <= k <= t.len(),
        forall|i: int| 0 <= i < k ==> #[trigger] t[i] != '.',
        k < t.len() ==> t[k] == '.',
    ensures
        before_first_dot(t) =~= t.take(k),
    decreases k,
{
    if k == 0 {
    } else {
        lemma_before_dot_prefix(t.drop_first(), k - 1);
        assert(seq![t[0]] + t.drop_first().take(k - 1) =~= t.take(k));
    }
}

proof fn lemma_format_canonical(n: u64, d1: char, d2: char)
    requires
        n <= 18_000_000_000,
        is_digit_char(d1),
        is_digit_char(d2),
    ensures
        format_rep(
            (n * 1_000_000_000 + (digit_val(d1) * 10 + digit_val(d2)) * 10_000_000) as u64,
        ) == dec_rep(n as int) + seq![':'] + seq![d1, d2],
{
    let k = digit_val(d1) * 10 + digit_val(d2);
    assert(0 <= k <= 99);
    let v = (n * 1_000_000_000 + k * 10_000_000) as u64;
    assert(v as int == n * 1_000_000_000 + k * 10_000_000);
    let c = n as int * 100 + k;
    assert(v as int == c * 10_000_000) by (nonlinear_arith)
        requires
            v as int == n * 1_000_000_000 + k * 10_000_000,
            c == n as int * 100 + k,
    ;
    assert(v as int / 10_000_000 == c && v as int % 10_000_000 == 0) by (nonlinear_arith)
        requires
            v as int == c * 10_000_000,
            c >= 0,
    ;
    assert(hundredths_of(v) == c);
    assert(c / 100 == n as int && c % 100 == k) by (nonlinear_arith)
        requires
            c == n as int * 100 + k,
            0 <= k <= 99,
            n >= 0,
    ;
    assert(char_of_digit(k / 10) == d1 && char_of_digit(k % 10) == d2) by {
        assert(k / 10 == digit_val(d1) && k % 10 == digit_val(d2));
        lemma_char_of_digit_val(d1);
        lemma_char_of_digit_val(d2);
    }
    assert(format_rep(v) =~= dec_rep(n as int) + seq![':'] + seq![d1, d2]);
}

proof fn lemma_char_of_digit_val(d: char)
    requires
        is_digit_char(d),
    ensures
        char_of_digit(digit_val(d)) == d,
{
}

} // verus!
