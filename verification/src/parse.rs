use vstd::prelude::*;

verus! {

/// Error returned when a string does not hold a well-formed integer.
#[derive(Debug, Clone, Copy, PartialEq, Eq)]
pub struct ParseError;

/// Scalar values are held in fixed-point form: an `i64` counting millionths,
/// so one whole unit is `MICROS`.
pub const MICROS: i64 = 1_000_000;

pub open spec fn is_digit(c: char) -> bool {
    '0' <= c && c <= '9'
}

pub open spec fn digit_value(c: char) -> int {
    c as u32 - '0' as u32
}

pub open spec fn all_digits(s: Seq<char>) -> bool {
    forall|i: int| 0 <= i < s.len() ==> is_digit(#[trigger] s[i])
}

/// Numeric value of a digit string, most significant digit first.
pub open spec fn digits_value(s: Seq<char>) -> int
    decreases s.len(),
{
    if s.len() == 0 {
        0
    } else {
        digits_value(s.drop_last()) * 10 + digit_value(s.last())
    }
}

pub open spec fn has_sign(s: Seq<char>) -> bool {
    s.len() > 0 && (s[0] == '+' || s[0] == '-')
}

/// The characters after an optional leading sign.
pub open spec fn num_body(s: Seq<char>) -> Seq<char> {
    if has_sign(s) {
        s.skip(1)
    } else {
        s
    }
}

pub open spec fn is_negative(s: Seq<char>) -> bool {
    s.len() > 0 && s[0] == '-'
}

/// An optional sign followed by one or more digits.
pub open spec fn is_int_string(s: Seq<char>) -> bool {
    num_body(s).len() > 0 && all_digits(num_body(s))
}

pub open spec fn int_string_value(s: Seq<char>) -> int {
    if is_negative(s) {
        -digits_value(num_body(s))
    } else {
        digits_value(num_body(s))
    }
}

pub proof fn lemma_digits_value_nonneg(s: Seq<char>)
    requires
        all_digits(s),
    ensures
        digits_value(s) >= 0,
    decreases s.len(),
{
    if s.len() > 0 {
        assert(all_digits(s.drop_last()));
        lemma_digits_value_nonneg(s.drop_last());
    }
}

proof fn lemma_digits_value_take_step(s: Seq<char>, j: int)
    requires
        0 <= j < s.len(),
    ensures
        digits_value(s.take(j + 1)) == digits_value(s.take(j)) * 10 + digit_value(s[j]),
{
    assert(s.take(j + 1).drop_last() =~= s.take(j));
    assert(s.take(j + 1).last() == s[j]);
}

/// Parses a decimal integer with an optional leading sign, exactly when the
/// whole string is well-formed and the value fits in an `i32`.
pub fn parse_number(s: &str) -> (r: Result<i32, ParseError>)
    ensures
        r is Ok <==> is_int_string(s@) && i32::MIN <= int_string_value(s@) <= i32::MAX,
        r is Ok ==> r->Ok_0 == int_string_value(s@),
{
    let n = s.unicode_len();
    let mut start: usize = 0;
    let mut neg = false;
    if n > 0 {
        let c0 = s.get_char(0);
        if c0 == '+' || c0 == '-' {
            start = 1;
            neg = c0 == '-';
        }
    }
    let ghost body = num_body(s@);
    proof {
        assert(body =~= s@.skip(start as int));
    }
    if start >= n {
        // no digits at all
        assert(!is_int_string(s@));
        return Err(ParseError);
    }
    let mut i: usize = start;
    let mut acc: u64 = 0;
    while i < n
        invariant
            start <= i <= n,
            n == s@.len(),
            start <= 1,
            body == num_body(s@),
            body =~= s@.skip(start as int),
            neg == is_negative(s@),
            all_digits(body.take(i - start)),
            digits_value(body.take(i - start)) <= 2147483648 ==> acc == digits_value(
                body.take(i - start),
            ),
            digits_value(body.take(i - start)) > 2147483648 ==> acc == 2147483649,
            acc <= 2147483649,
        decreases n - i,
    {
        let c = s.get_char(i);
        proof {
            assert(body[i - start] == s@[i as int]);
        }
        if !('0' <= c && c <= '9') {
            assert(!all_digits(body)) by {
                assert(body[i - start] == c && !is_digit(c));
            }
            return Err(ParseError);
        }
        let d = (c as u32 - '0' as u32) as u64;
        let ghost j = i - start;
        proof {
            lemma_digits_value_take_step(body, j);
            lemma_digits_value_nonneg(body.take(j));
            assert(body.take(j + 1) =~= body.take(j).push(body[j]));
        }
        let raw = acc * 10 + d;
        acc = if raw > 2147483648 {
            2147483649
        } else {
            raw
        };
        i += 1;
    }
    proof {
        assert(body.take(i - start) =~= body);
        lemma_digits_value_nonneg(body);
    }
    let ghost v = digits_value(body);
    if neg {
        if acc <= 2147483648 {
            assert(v == acc);
            Ok((-(acc as i64)) as i32)
        } else {
            assert(int_string_value(s@) < i32::MIN);
            Err(ParseError)
        }
    } else {
        if acc <= 2147483647 {
            assert(v == acc);
            Ok(acc as i32)
        } else {
            assert(int_string_value(s@) > i32::MAX);
            Err(ParseError)
        }
    }
}

/// Largest whole part a fixed-point value may carry: values are decimals
/// whose whole part stays below `10^12`, so the millionths fit in an `i64`.
pub const WHOLE_LIMIT: i64 = 1_000_000_000_000;

pub open spec fn pow10(k: nat) -> int
    decreases k,
{
    if k == 0 {
        1
    } else {
        10 * pow10((k - 1) as nat)
    }
}

/// Index of the first `.` in `s`, or `s.len()` if there is none.
pub open spec fn dot_index(s: Seq<char>) -> int
    decreases s.len(),
{
    if s.len() == 0 {
        0
    } else if s[0] == '.' {
        0
    } else {
        1 + dot_index(s.skip(1))
    }
}

/// Digits before the first dot, sign stripped.
pub open spec fn whole_digits(s: Seq<char>) -> Seq<char> {
    num_body(s).take(dot_index(num_body(s)))
}

/// Digits after the first dot, sign stripped; empty when there is no dot.
pub open spec fn frac_digits(s: Seq<char>) -> Seq<char> {
    if dot_index(num_body(s)) < num_body(s).len() {
        num_body(s).skip(dot_index(num_body(s)) + 1)
    } else {
        Seq::<char>::empty()
    }
}

/// An optional sign, then digits with at most one dot among them, with at
/// least one digit in all.
pub open spec fn is_fixed_string(s: Seq<char>) -> bool {
    &&& all_digits(whole_digits(s))
    &&& all_digits(frac_digits(s))
    &&& whole_digits(s).len() + frac_digits(s).len() > 0
}

/// Value in millionths of a fraction-digit string; digits beyond the sixth
/// are cut off.
pub open spec fn frac_micros(f: Seq<char>) -> int {
    if f.len() >= 6 {
        digits_value(f.take(6))
    } else {
        digits_value(f) * pow10((6 - f.len()) as nat)
    }
}

/// Value in millionths of a well-formed decimal string.
pub open spec fn fixed_string_micros(s: Seq<char>) -> int {
    let mag = digits_value(whole_digits(s)) * (MICROS as int) + frac_micros(frac_digits(s));
    if is_negative(s) {
        -mag
    } else {
        mag
    }
}

pub proof fn lemma_pow10_pos(k: nat)
    ensures
        pow10(k) >= 1,
    decreases k,
{
    if k > 0 {
        lemma_pow10_pos((k - 1) as nat);
    }
}

proof fn lemma_pow10_add(a: nat, b: nat)
    ensures
        pow10(a + b) == pow10(a) * pow10(b),
    decreases a,
{
    if a > 0 {
        lemma_pow10_add((a - 1) as nat, b);
        assert(pow10(a + b) == 10 * pow10((a + b - 1) as nat));
        assert(10 * (pow10((a - 1) as nat) * pow10(b)) == (10 * pow10((a - 1) as nat)) * pow10(
            b,
        )) by (nonlinear_arith);
    }
}

pub proof fn lemma_digits_value_bound(s: Seq<char>)
    requires
        all_digits(s),
    ensures
        digits_value(s) < pow10(s.len()),
    decreases s.len(),
{
    if s.len() > 0 {
        assert(all_digits(s.drop_last()));
        lemma_digits_value_bound(s.drop_last());
    }
}

proof fn lemma_dot_index_facts(s: Seq<char>)
    ensures
        0 <= dot_index(s) <= s.len(),
        forall|k: int| 0 <= k < dot_index(s) ==> s[k] != '.',
        dot_index(s) < s.len() ==> s[dot_index(s)] == '.',
    decreases s.len(),
{
    if s.len() > 0 && s[0] != '.' {
        lemma_dot_index_facts(s.skip(1));
        assert forall|k: int| 0 <= k < dot_index(s) implies s[k] != '.' by {
            if k > 0 {
                assert(s[k] == s.skip(1)[k - 1]);
            }
        }
        if dot_index(s) < s.len() {
            assert(s[dot_index(s)] == s.skip(1)[dot_index(s) - 1]);
        }
    }
}

fn pow10_exec(k: usize) -> (r: u64)
    requires
        k <= 6,
    ensures
        r == pow10(k as nat),
{
    proof {
        reveal_with_fuel(pow10, 8);
    }
    if k == 0 {
        1
    } else if k == 1 {
        10
    } else if k == 2 {
        100
    } else if k == 3 {
        1_000
    } else if k == 4 {
        10_000
    } else if k == 5 {
        100_000
    } else {
        1_000_000
    }
}

/// Parses a decimal string (optional sign, digits, at most one dot) into
/// millionths, exactly when the string is well-formed and its whole part is
/// below `WHOLE_LIMIT`. Fraction digits beyond the sixth are cut off.
#[verifier::loop_isolation(false)]
#[verifier::rlimit(100)]
pub fn parse_fixed(s: &str) -> (r: Option<i64>)
    ensures
        r is Some <==> is_fixed_string(s@) && digits_value(whole_digits(s@)) < WHOLE_LIMIT as int,
        r is Some ==> r->0 == fixed_string_micros(s@),
{
    let n = s.unicode_len();
    let mut start: usize = 0;
    let mut neg = false;
    if n > 0 {
        let c0 = s.get_char(0);
        if c0 == '+' || c0 == '-' {
            start = 1;
            neg = c0 == '-';
        }
    }
    let ghost body = num_body(s@);
    proof {
        assert(body =~= s@.skip(start as int));
        lemma_dot_index_facts(body);
    }
    let mut i: usize = start;
    let mut acc_w: u64 = 0;
    let mut found_dot = false;
    while i < n && !found_dot
        invariant
            start <= i <= n,
            !found_dot ==> {
                let w = body.take(i - start);
                &&& all_digits(w)
                &&& (digits_value(w) < 1_000_000_000_000 ==> acc_w == digits_value(w))
                &&& (digits_value(w) >= 1_000_000_000_000 ==> acc_w == 1_000_000_000_000)
            },
            found_dot ==> {
                let w = body.take(i - 1 - start);
                &&& i >= 1 + start
                &&& body[i - 1 - start] == '.'
                &&& all_digits(w)
                &&& (digits_value(w) < 1_000_000_000_000 ==> acc_w == digits_value(w))
                &&& (digits_value(w) >= 1_000_000_000_000 ==> acc_w == 1_000_000_000_000)
            },
            acc_w <= 1_000_000_000_000,
        decreases n - i,
    {
        let c = s.get_char(i);
        let ghost j = i - start;
        proof {
            assert(body[j] == s@[i as int]);
        }
        if c == '.' {
            found_dot = true;
            i += 1;
        } else if '0' <= c && c <= '9' {
            let d = (c as u32 - '0' as u32) as u64;
            proof {
                lemma_digits_value_take_step(body, j);
                lemma_digits_value_nonneg(body.take(j));
                assert(body.take(j + 1) =~= body.take(j).push(body[j]));
            }
            let raw = acc_w * 10 + d;
            acc_w = if raw >= 1_000_000_000_000 {
                1_000_000_000_000
            } else {
                raw
            };
            i += 1;
        } else {
            // neither a digit nor a dot: the whole part cannot be all digits
            proof {
                let di = dot_index(body);
                if di <= j {
                    if di < j {
                        assert(is_digit(body.take(j)[di]));
                    }
                    assert(body[di] == '.');
                    assert(false);
                }
                assert(whole_digits(s@) == body.take(di));
                assert(whole_digits(s@)[j] == body[j]);
                assert(!is_digit(whole_digits(s@)[j]));
            }
            return None;
        }
    }
    // pin the dot position
    let whole_len = if found_dot {
        i - 1 - start
    } else {
        i - start
    };
    proof {
        let di = dot_index(body);
        if found_dot {
            if di < whole_len {
                assert(is_digit(body.take(whole_len as int)[di]));
                assert(body[di] == '.');
                assert(false);
            }
            if di > whole_len {
                assert(body[whole_len as int] != '.');
                assert(false);
            }
        } else {
            assert(i == n);
            assert(body.take(i - start) =~= body);
            if di < body.len() {
                assert(is_digit(body[di]));
                assert(body[di] == '.');
                assert(false);
            }
        }
        assert(whole_digits(s@) =~= body.take(whole_len as int));
    }
    let ghost frac = frac_digits(s@);
    let frac_start = i;
    proof {
        if found_dot {
            assert(frac =~= body.skip(whole_len + 1));
        } else {
            assert(frac =~= Seq::<char>::empty());
        }
        assert(frac.len() == n - frac_start);
        assert forall|k: int| 0 <= k < frac.len() implies frac[k] == s@[frac_start + k] by {}
    }
    let mut acc_f: u64 = 0;
    let mut fcount: usize = 0;
    while i < n
        invariant
            frac_start <= i <= n,
            fcount == i - frac_start,
            all_digits(frac.take(fcount as int)),
            fcount <= 6 ==> acc_f == digits_value(frac.take(fcount as int)),
            fcount > 6 ==> acc_f == digits_value(frac.take(6)),
            acc_f <= 999_999,
        decreases n - i,
    {
        let c = s.get_char(i);
        let ghost m = fcount as int;
        proof {
            assert(frac[m] == s@[i as int]);
        }
        if !('0' <= c && c <= '9') {
            assert(!all_digits(frac)) by {
                assert(frac[m] == c && !is_digit(c));
            }
            return None;
        }
        let d = (c as u32 - '0' as u32) as u64;
        proof {
            lemma_digits_value_take_step(frac, m);
            lemma_digits_value_nonneg(frac.take(m));
            assert(frac.take(m + 1) =~= frac.take(m).push(frac[m]));
            if m < 6 {
                assert(all_digits(frac.take(m + 1)));
                lemma_digits_value_bound(frac.take(m + 1));
                assert(pow10(6) == 1_000_000 && pow10(5) == 100_000 && pow10(4) == 10_000
                    && pow10(3) == 1_000 && pow10(2) == 100 && pow10(1) == 10) by {
                    reveal_with_fuel(pow10, 8);
                }
                lemma_pow10_pos((6 - (m + 1)) as nat);
                lemma_pow10_add((m + 1) as nat, (6 - (m + 1)) as nat);
                assert(pow10((m + 1) as nat) <= 1_000_000) by {
                    vstd::arithmetic::mul::lemma_mul_upper_bound(
                        pow10((m + 1) as nat),
                        pow10((m + 1) as nat),
                        1,
                        pow10((6 - (m + 1)) as nat),
                    );
                }
            }
        }
        if fcount < 6 {
            acc_f = acc_f * 10 + d;
        }
        fcount += 1;
        i += 1;
    }
    proof {
        assert(frac.take(fcount as int) =~= frac);
    }
    if whole_len == 0 && fcount == 0 {
        // no digits anywhere
        return None;
    }
    if acc_w >= 1_000_000_000_000 {
        // well-formed but too wide for the fixed-point range
        return None;
    }
    let frac_val = if fcount >= 6 {
        proof {
            assert(frac.take(6) =~= frac.take(fcount as int).take(6));
            assert(all_digits(frac.take(6)));
            lemma_digits_value_bound(frac.take(6));
            lemma_digits_value_nonneg(frac.take(6));
            assert(pow10(6) == 1_000_000) by {
                reveal_with_fuel(pow10, 8);
            }
        }
        acc_f
    } else {
        let mult = pow10_exec(6 - fcount);
        proof {
            let fl = frac.len();
            assert(acc_f == digits_value(frac));
            lemma_digits_value_bound(frac);
            lemma_digits_value_nonneg(frac);
            lemma_pow10_pos((6 - fl) as nat);
            lemma_pow10_add(fl, (6 - fl) as nat);
            assert(pow10(6) == 1_000_000) by {
                reveal_with_fuel(pow10, 8);
            }
            let p1 = pow10(fl);
            let p2 = pow10((6 - fl) as nat);
            assert((acc_f as int) * (mult as int) < 1_000_000) by (nonlinear_arith)
                requires
                    0 <= acc_f as int,
                    acc_f as int <= p1 - 1,
                    mult as int == p2,
                    p1 * p2 == 1_000_000,
                    p2 >= 1,
            {}
            assert((acc_f as int) * (mult as int) >= 0) by (nonlinear_arith)
                requires
                    0 <= acc_f as int,
                    0 <= mult as int,
            {}
        }
        acc_f * mult
    };
    proof {
        assert(frac_val == frac_micros(frac));
        assert(frac_val < 1_000_000);
    }
    let total = acc_w * 1_000_000 + frac_val;
    if neg {
        Some(-(total as i64))
    } else {
        Some(total as i64)
    }
}

/// The silent-default parse policy: a malformed or out-of-range field falls
/// back to `default` instead of failing.
pub fn parse_fixed_or(s: &str, default: i64) -> (r: i64)
    ensures
        r == spec_parse_fixed_or(s@, default),
{
    match parse_fixed(s) {
        Some(v) => v,
        None => default,
    }
}

/// The string parses as a fixed-point value: well-formed and in range.
pub open spec fn spec_parseable(s: Seq<char>) -> bool {
    is_fixed_string(s) && digits_value(whole_digits(s)) < WHOLE_LIMIT as int
}

pub open spec fn spec_parse_fixed_or(s: Seq<char>, default: i64) -> i64 {
    if spec_parseable(s) {
        fixed_string_micros(s) as i64
    } else {
        default
    }
}

pub proof fn lemma_frac_micros_range(f: Seq<char>)
    requires
        all_digits(f),
    ensures
        0 <= frac_micros(f) < 1_000_000,
{
    reveal_with_fuel(pow10, 8);
    if f.len() >= 6 {
        assert(all_digits(f.take(6)));
        lemma_digits_value_bound(f.take(6));
        lemma_digits_value_nonneg(f.take(6));
    } else {
        lemma_digits_value_bound(f);
        lemma_digits_value_nonneg(f);
        lemma_pow10_pos((6 - f.len()) as nat);
        lemma_pow10_add(f.len(), (6 - f.len()) as nat);
        let p1 = pow10(f.len());
        let p2 = pow10((6 - f.len()) as nat);
        assert(0 <= digits_value(f) * p2 < 1_000_000) by (nonlinear_arith)
            requires
                0 <= digits_value(f) <= p1 - 1,
                p1 * p2 == 1_000_000,
                p2 >= 1,
        ;
    }
}

/// Any value the fixed-point parser accepts stays within one quintillion
/// millionths in magnitude, so sums of a few parsed values cannot overflow.
pub proof fn lemma_fixed_value_bound(s: Seq<char>)
    requires
        spec_parseable(s),
    ensures
        -1_000_000_000_000_000_000 < fixed_string_micros(s) < 1_000_000_000_000_000_000,
{
    lemma_digits_value_nonneg(whole_digits(s));
    lemma_frac_micros_range(frac_digits(s));
}

pub proof fn lemma_parse_fixed_or_bound(s: Seq<char>, d: i64)
    requires
        -1_000_000_000_000_000_000 <= d <= 1_000_000_000_000_000_000,
    ensures
        -1_000_000_000_000_000_000 <= spec_parse_fixed_or(s, d) <= 1_000_000_000_000_000_000,
{
    if spec_parseable(s) {
        lemma_fixed_value_bound(s);
    }
}

} // verus!
