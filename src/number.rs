use vstd::prelude::*;
use vstd::string::StrSliceExecFns;

verus! {

pub open spec fn is_digit(c: char) -> bool {
    '0' as u32 <= c as u32 <= '9' as u32
}

pub open spec fn digit_value(c: char) -> int {
    c as u32 - '0' as u32
}

pub open spec fn all_digits(s: Seq<char>) -> bool {
    forall|k: int| 0 <= k < s.len() ==> is_digit(#[trigger] s[k])
}

/// The number that the decimal digits `s` spell.
pub open spec fn digits_value(s: Seq<char>) -> int
    decreases s.len(),
{
    if s.len() == 0 {
        0
    } else {
        digits_value(s.drop_last()) * 10 + digit_value(s.last())
    }
}

/// The first position of `c` in `s`.
pub open spec fn index_of<A>(s: Seq<A>, c: A) -> Option<int>
    decreases s.len(),
{
    if s.len() == 0 {
        None
    } else {
        match index_of(s.drop_last(), c) {
            Some(i) => Some(i),
            None => if s.last() == c {
                Some(s.len() - 1)
            } else {
                None
            },
        }
    }
}

/// An unsigned integer: an optional `+` and at least one digit, with a value that fits.
pub open spec fn parse_nat(s: Seq<char>) -> Option<u32> {
    let body = if s.len() > 0 && s[0] == '+' {
        s.drop_first()
    } else {
        s
    };
    if body.len() > 0 && all_digits(body) && digits_value(body) <= u32::MAX {
        Some(digits_value(body) as u32)
    } else {
        None
    }
}

/// 10 raised to the power `n`.
pub open spec fn pow10(n: nat) -> int
    decreases n,
{
    if n == 0 {
        1
    } else {
        10 * pow10((n - 1) as nat)
    }
}

/// `s` spells the lower-case `word` in lower- or upper-case letters.
pub open spec fn spells(s: Seq<char>, word: Seq<char>) -> bool {
    s.len() == word.len() && forall|i: int|
        0 <= i < s.len() ==> (s[i] == word[i] || s[i] as u32 == word[i] as u32 - 32)
}

pub open spec fn is_exp_mark(c: char) -> bool {
    c == 'e' || c == 'E'
}

/// The first position of an exponent mark in `s`.
pub open spec fn exp_mark_index(s: Seq<char>) -> Option<int>
    decreases s.len(),
{
    if s.len() == 0 {
        None
    } else {
        match exp_mark_index(s.drop_last()) {
            Some(i) => Some(i),
            None => if is_exp_mark(s.last()) {
                Some(s.len() - 1)
            } else {
                None
            },
        }
    }
}

/// An exponent: an optional sign and at least one digit.
pub open spec fn exponent(s: Seq<char>) -> Option<int> {
    let negative = s.len() > 0 && s[0] == '-';
    let digits = if s.len() > 0 && (s[0] == '+' || s[0] == '-') {
        s.drop_first()
    } else {
        s
    };
    if digits.len() > 0 && all_digits(digits) {
        Some(
            if negative {
                -digits_value(digits)
            } else {
                digits_value(digits)
            },
        )
    } else {
        None
    }
}

/// The number the digits spell, times `10^shift`, truncated toward zero.
pub open spec fn shifted(digits: Seq<char>, shift: int) -> int {
    if shift >= 0 {
        digits_value(digits) * pow10(shift as nat)
    } else if digits.len() + shift <= 0 {
        0
    } else {
        digits_value(digits.take(digits.len() + shift))
    }
}

/// `v` brought into the range of `u32` from above.
pub open spec fn saturated(v: int) -> u32 {
    if v > u32::MAX {
        u32::MAX
    } else {
        v as u32
    }
}

/// A number written with digits, as `parse_percent` describes, of which `negative` says
/// whether a minus sign preceded `body`.
pub open spec fn finite_percent(body: Seq<char>, negative: bool) -> Option<u32> {
    let mant = match exp_mark_index(body) {
        Some(k) => body.take(k),
        None => body,
    };
    let exp = match exp_mark_index(body) {
        Some(k) => exponent(body.subrange(k + 1, body.len() as int)),
        None => Some(0int),
    };
    let whole = match index_of(mant, '.') {
        Some(d) => mant.take(d),
        None => mant,
    };
    let frac = match index_of(mant, '.') {
        Some(d) => mant.subrange(d + 1, mant.len() as int),
        None => Seq::empty(),
    };
    match exp {
        Some(e) => if all_digits(whole) && all_digits(frac) && whole.len() + frac.len() > 0 {
            Some(
                if negative {
                    0
                } else {
                    saturated(shifted(whole + frac, e + 2 - frac.len()))
                },
            )
        } else {
            None
        },
        None => None,
    }
}

/// A number as a float is written — an optional sign, then `inf`, `infinity` or `nan` in
/// either case, or digits with at most one point and at least one digit, followed perhaps by
/// `e` or `E` and a signed exponent — times 100 and truncated toward zero, in the range of
/// `u32`: negative numbers and `nan` give 0, numbers too large give `u32::MAX`.
pub open spec fn parse_percent(s: Seq<char>) -> Option<u32> {
    let negative = s.len() > 0 && s[0] == '-';
    let body = if s.len() > 0 && (s[0] == '+' || s[0] == '-') {
        s.drop_first()
    } else {
        s
    };
    if spells(body, "inf"@) || spells(body, "infinity"@) {
        Some(
            if negative {
                0
            } else {
                u32::MAX
            },
        )
    } else if spells(body, "nan"@) {
        Some(0)
    } else {
        finite_percent(body, negative)
    }
}

pub proof fn lemma_digits_value_nonneg(s: Seq<char>)
    requires
        all_digits(s),
    ensures
        digits_value(s) >= 0,
    decreases s.len(),
{
    if s.len() > 0 {
        assert(is_digit(s[s.len() - 1]));
        lemma_digits_value_nonneg(s.drop_last());
    }
}

fn digit_of(c: char) -> (r: Option<u32>)
    ensures
        is_digit(c) ==> r == Some(digit_value(c) as u32),
        !is_digit(c) ==> r is None,
{
    let v = c as u32;
    if v >= '0' as u32 && v <= '9' as u32 {
        Some(v - '0' as u32)
    } else {
        None
    }
}

pub proof fn lemma_index_of_bounds<A>(s: Seq<A>, c: A)
    ensures
        index_of(s, c) matches Some(i) ==> 0 <= i < s.len() && s[i] == c,
        index_of(s, c) is None ==> forall|k: int| 0 <= k < s.len() ==> s[k] != c,
    decreases s.len(),
{
    if s.len() > 0 {
        lemma_index_of_bounds(s.drop_last(), c);
        if index_of(s, c) is None {
            assert forall|k: int| 0 <= k < s.len() implies s[k] != c by {
                if k < s.len() - 1 {
                    assert(s.drop_last()[k] == s[k]);
                }
            }
        }
    }
}

/// A first position found in a prefix stays the first position in the whole.
pub proof fn lemma_index_of_prefix<A>(s: Seq<A>, c: A, k: int)
    requires
        0 <= k <= s.len(),
        index_of(s.take(k), c) is Some,
    ensures
        index_of(s, c) == index_of(s.take(k), c),
    decreases s.len(),
{
    if k < s.len() {
        assert(s.drop_last().take(k) =~= s.take(k));
        lemma_index_of_prefix(s.drop_last(), c, k);
    } else {
        assert(s.take(k) =~= s);
    }
}

/// The largest exponent magnitude kept exactly; any beyond it gives the same result.
pub const EXP_CAP: u128 = 0x10000000000000000000000000;

/// The value of the digits `s[from..to]`, saturated at `cap`; `None` if one is no digit.
fn digits_in(s: &str, from: usize, to: usize, cap: u128) -> (r: Option<u128>)
    requires
        from <= to <= s@.len(),
        0 < cap <= EXP_CAP,
    ensures
        match r {
            Some(v) => all_digits(s@.subrange(from as int, to as int)) && v == (if digits_value(
                s@.subrange(from as int, to as int),
            ) < cap {
                digits_value(s@.subrange(from as int, to as int))
            } else {
                cap as int
            }),
            None => !all_digits(s@.subrange(from as int, to as int)),
        },
{
    let mut acc: u128 = 0;
    let mut i = from;
    while i < to
        invariant
            from <= i <= to <= s@.len(),
            0 < cap <= EXP_CAP,
            all_digits(s@.subrange(from as int, i as int)),
            acc == (if digits_value(s@.subrange(from as int, i as int)) < cap {
                digits_value(s@.subrange(from as int, i as int))
            } else {
                cap as int
            }),
        decreases to - i,
    {
        let ghost prev = s@.subrange(from as int, i as int);
        let ghost next = s@.subrange(from as int, i + 1);
        assert(next.drop_last() =~= prev);
        assert(next.last() == s@[i as int]);
        proof {
            lemma_digits_value_nonneg(prev);
        }
        match digit_of(s.get_char(i)) {
            Some(d) => {
                let grown = acc * 10 + d as u128;
                acc = if grown < cap {
                    grown
                } else {
                    cap
                };
                assert(all_digits(next)) by {
                    assert forall|k: int| 0 <= k < next.len() implies is_digit(#[trigger] next[k]) by {
                        if k < prev.len() {
                            assert(next[k] == prev[k]);
                        }
                    }
                }
            },
            None => {
                assert(!is_digit(s@.subrange(from as int, to as int)[i - from]));
                return None;
            },
        }
        i = i + 1;
    }
    Some(acc)
}

/// The first position of `c` in `s[from..to]`, counted from `from`.
pub fn find_char(s: &str, from: usize, to: usize, c: char) -> (r: Option<usize>)
    requires
        from <= to <= s@.len(),
    ensures
        r == (match index_of(s@.subrange(from as int, to as int), c) {
            Some(i) => Some(i as usize),
            None => None,
        }),
        r matches Some(i) ==> from + i < to && index_of(s@.subrange(from as int, to as int), c)
            == Some(i as int),
{
    proof {
        lemma_index_of_bounds(s@.subrange(from as int, to as int), c);
    }
    let mut i = from;
    while i < to
        invariant
            from <= i <= to <= s@.len(),
            index_of(s@.subrange(from as int, i as int), c) is None,
        decreases to - i,
    {
        let ghost prev = s@.subrange(from as int, i as int);
        let ghost next = s@.subrange(from as int, i + 1);
        assert(next.drop_last() =~= prev);
        if s.get_char(i) == c {
            proof {
                lemma_index_of_prefix(s@.subrange(from as int, to as int), c, i - from + 1);
                assert(s@.subrange(from as int, to as int).take(i - from + 1) =~= next);
            }
            return Some(i - from);
        }
        i = i + 1;
    }
    assert(s@.subrange(from as int, i as int) =~= s@.subrange(from as int, to as int));
    None
}

proof fn lemma_exp_mark_bounds(s: Seq<char>)
    ensures
        exp_mark_index(s) matches Some(i) ==> 0 <= i < s.len(),
    decreases s.len(),
{
    if s.len() > 0 {
        lemma_exp_mark_bounds(s.drop_last());
    }
}

proof fn lemma_exp_mark_prefix(s: Seq<char>, k: int)
    requires
        0 <= k <= s.len(),
        exp_mark_index(s.take(k)) is Some,
    ensures
        exp_mark_index(s) == exp_mark_index(s.take(k)),
    decreases s.len(),
{
    if k < s.len() {
        assert(s.drop_last().take(k) =~= s.take(k));
        lemma_exp_mark_prefix(s.drop_last(), k);
    } else {
        assert(s.take(k) =~= s);
    }
}

/// The first position of an exponent mark in `s[from..to]`, counted from `from`.
fn find_exp_mark(s: &str, from: usize, to: usize) -> (r: Option<usize>)
    requires
        from <= to <= s@.len(),
    ensures
        match r {
            Some(i) => from + i < to && exp_mark_index(s@.subrange(from as int, to as int)) == Some(
                i as int,
            ),
            None => exp_mark_index(s@.subrange(from as int, to as int)) is None,
        },
{
    let mut i = from;
    while i < to
        invariant
            from <= i <= to <= s@.len(),
            exp_mark_index(s@.subrange(from as int, i as int)) is None,
        decreases to - i,
    {
        let ghost prev = s@.subrange(from as int, i as int);
        let ghost next = s@.subrange(from as int, i + 1);
        assert(next.drop_last() =~= prev);
        let c = s.get_char(i);
        if c == 'e' || c == 'E' {
            proof {
                lemma_exp_mark_prefix(s@.subrange(from as int, to as int), i - from + 1);
                assert(s@.subrange(from as int, to as int).take(i - from + 1) =~= next);
            }
            return Some(i - from);
        }
        i = i + 1;
    }
    assert(s@.subrange(from as int, i as int) =~= s@.subrange(from as int, to as int));
    None
}

/// Reads an unsigned integer as `parse_nat` describes.
pub fn parse_u32(s: &str) -> (r: Option<u32>)
    ensures
        r == parse_nat(s@),
{
    let n = s.unicode_len();
    let start: usize = if n > 0 && s.get_char(0) == '+' {
        1
    } else {
        0
    };
    if start == n {
        return None;
    }
    let ghost body = if s@.len() > 0 && s@[0] == '+' {
        s@.drop_first()
    } else {
        s@
    };
    assert(s@.subrange(start as int, n as int) =~= body);
    match digits_in(s, start, n, u32::MAX as u128 + 1) {
        Some(v) => {
            if v > u32::MAX as u128 {
                None
            } else {
                Some(v as u32)
            }
        },
        None => None,
    }
}

/// Whether `s[from..to]` spells the lower-case `word` in either case.
fn spells_word(s: &str, from: usize, to: usize, word: &str) -> (r: bool)
    requires
        from <= to <= s@.len(),
        forall|i: int| 0 <= i < word@.len() ==> 97 <= #[trigger] word@[i] as u32 <= 122,
    ensures
        r == spells(s@.subrange(from as int, to as int), word@),
{
    let m = word.unicode_len();
    if to - from != m {
        return false;
    }
    let ghost sub = s@.subrange(from as int, to as int);
    let mut i: usize = 0;
    while i < m
        invariant
            m == word@.len(),
            to - from == m,
            from <= to <= s@.len(),
            sub == s@.subrange(from as int, to as int),
            i <= m,
            forall|i: int| 0 <= i < word@.len() ==> 97 <= #[trigger] word@[i] as u32 <= 122,
            forall|k: int|
                0 <= k < i ==> (sub[k] == word@[k] || sub[k] as u32 == word@[k] as u32 - 32),
        decreases m - i,
    {
        let c = s.get_char(from + i);
        let w = word.get_char(i);
        assert(sub[i as int] == c);
        if !(c == w || c as u32 == w as u32 - 32) {
            return false;
        }
        i = i + 1;
    }
    true
}

/// The exponent in `s[from..to]`, its magnitude capped at `EXP_CAP`.
fn read_exponent(s: &str, from: usize, to: usize) -> (r: Option<i128>)
    requires
        from <= to <= s@.len(),
    ensures
        match exponent(s@.subrange(from as int, to as int)) {
            Some(e) => r == Some(
                (if e > EXP_CAP {
                    EXP_CAP as int
                } else if e < -EXP_CAP {
                    -EXP_CAP
                } else {
                    e
                }) as i128,
            ),
            None => r is None,
        },
{
    let ghost sub = s@.subrange(from as int, to as int);
    let first = if from < to {
        s.get_char(from)
    } else {
        ' '
    };
    let negative = from < to && first == '-';
    let start = if from < to && (first == '+' || first == '-') {
        from + 1
    } else {
        from
    };
    proof {
        if from < to {
            assert(sub[0] == s@[from as int]);
        }
        if start > from {
            assert(s@.subrange(start as int, to as int) =~= sub.drop_first());
        } else {
            assert(s@.subrange(start as int, to as int) =~= sub);
        }
    }
    if start == to {
        return None;
    }
    match digits_in(s, start, to, EXP_CAP) {
        Some(v) => {
            proof {
                lemma_digits_value_nonneg(s@.subrange(start as int, to as int));
            }
            if negative {
                Some(-(v as i128))
            } else {
                Some(v as i128)
            }
        },
        None => None,
    }
}

/// The digits of a number whose digits run from `start` to `end`, with a point at `dot`
/// (`dot == end` for none).
pub open spec fn mantissa(s: Seq<char>, start: int, dot: int, end: int) -> Seq<char> {
    if dot < end {
        s.subrange(start, dot) + s.subrange(dot + 1, end)
    } else {
        s.subrange(start, end)
    }
}

/// The value of the first `limit` digits of `mantissa(s@, start, dot, end)`, saturated at `cap`.
fn leading_digits(s: &str, start: usize, dot: usize, end: usize, limit: usize, cap: u128) -> (r: u128)
    requires
        start <= dot <= end <= s@.len(),
        limit <= mantissa(s@, start as int, dot as int, end as int).len(),
        all_digits(mantissa(s@, start as int, dot as int, end as int)),
        0 < cap <= EXP_CAP,
    ensures
        r == (if digits_value(mantissa(s@, start as int, dot as int, end as int).take(limit as int))
            < cap {
            digits_value(mantissa(s@, start as int, dot as int, end as int).take(limit as int))
        } else {
            cap as int
        }),
{
    let ghost m = mantissa(s@, start as int, dot as int, end as int);
    let mut acc: u128 = 0;
    let mut count: usize = 0;
    while count < limit
        invariant
            start <= dot <= end <= s@.len(),
            m == mantissa(s@, start as int, dot as int, end as int),
            limit <= m.len(),
            all_digits(m),
            0 < cap <= EXP_CAP,
            count <= limit,
            acc == (if digits_value(m.take(count as int)) < cap {
                digits_value(m.take(count as int))
            } else {
                cap as int
            }),
        decreases limit - count,
    {
        let p = if start + count < dot {
            start + count
        } else if dot < end {
            start + count + 1
        } else {
            start + count
        };
        assert(m[count as int] == s@[p as int]);
        assert(m.take(count + 1).drop_last() =~= m.take(count as int));
        assert(m.take(count + 1).last() == m[count as int]);
        assert(is_digit(m[count as int]));
        proof {
            lemma_digits_value_nonneg(m.take(count as int));
        }
        let d = digit_of(s.get_char(p)).unwrap();
        let grown = acc * 10 + d as u128;
        acc = if grown < cap {
            grown
        } else {
            cap
        };
        count = count + 1;
    }
    acc
}

proof fn lemma_pow10_positive(n: nat)
    ensures
        pow10(n) >= 1,
    decreases n,
{
    if n > 0 {
        lemma_pow10_positive((n - 1) as nat);
    }
}

proof fn lemma_pow10_monotonic(a: nat, b: nat)
    requires
        a <= b,
    ensures
        pow10(a) <= pow10(b),
    decreases b,
{
    if a < b {
        lemma_pow10_monotonic(a, (b - 1) as nat);
        lemma_pow10_positive((b - 1) as nat);
    }
}

/// Beyond `EXP_CAP` the exponent no longer changes the result: the number is either 0 or too
/// large in one direction, and has no digit left in the other.
proof fn lemma_exponent_capped(digits: Seq<char>, e: int, frac: int)
    requires
        all_digits(digits),
        0 <= frac <= digits.len() < 0x1_0000_0000_0000_0000,
    ensures
        saturated(
            shifted(
                digits,
                (if e > EXP_CAP {
                    EXP_CAP as int
                } else if e < -EXP_CAP {
                    -EXP_CAP
                } else {
                    e
                }) + 2 - frac,
            ),
        ) == saturated(shifted(digits, e + 2 - frac)),
{
    lemma_digits_value_nonneg(digits);
    let dv = digits_value(digits);
    if e > EXP_CAP {
        let lo = (EXP_CAP + 2 - frac) as nat;
        let hi = (e + 2 - frac) as nat;
        lemma_pow10_monotonic(11, lo);
        lemma_pow10_monotonic(lo, hi);
        assert(pow10(11) == 100000000000) by {
            reveal_with_fuel(pow10, 12);
        }
        if dv > 0 {
            assert(dv * pow10(lo) >= pow10(lo) && dv * pow10(hi) >= pow10(hi)) by (nonlinear_arith)
                requires
                    dv >= 1,
                    pow10(lo) >= 1,
                    pow10(hi) >= 1,
            ;
        } else {
            assert(dv * pow10(lo) == 0 && dv * pow10(hi) == 0) by (nonlinear_arith)
                requires
                    dv == 0,
            ;
        }
    }
}

/// `saturated(shifted(..))` of the digits of `s[start..end]` around a point at `dot`.
fn shifted_saturated(s: &str, start: usize, dot: usize, end: usize, shift: i128) -> (r: u32)
    requires
        start <= dot <= end <= s@.len(),
        all_digits(mantissa(s@, start as int, dot as int, end as int)),
    ensures
        r == saturated(shifted(mantissa(s@, start as int, dot as int, end as int), shift as int)),
{
    let ghost m = mantissa(s@, start as int, dot as int, end as int);
    let len: usize = if dot < end {
        end - start - 1
    } else {
        end - start
    };
    assert(m.len() == len);
    let big: u128 = 0x1_0000_0000;
    let v: u128 = if shift >= 0 {
        let ghost dv = digits_value(m);
        let mut acc = leading_digits(s, start, dot, end, len, big);
        assert(m.take(len as int) =~= m);
        proof {
            lemma_digits_value_nonneg(m);
        }
        let mut k: i128 = 0;
        while k < shift && acc != 0 && acc < big
            invariant
                0 <= k <= shift,
                dv >= 0,
                big == 0x1_0000_0000,
                acc <= big,
                acc == (if dv * pow10(k as nat) < big {
                    dv * pow10(k as nat)
                } else {
                    big as int
                }),
            decreases shift - k,
        {
            proof {
                lemma_pow10_positive(k as nat);
                assert(pow10((k + 1) as nat) == 10 * pow10(k as nat));
                assert(dv * (10 * pow10(k as nat)) == 10 * (dv * pow10(k as nat))) by (nonlinear_arith);
            }
            acc = if acc * 10 < big {
                acc * 10
            } else {
                big
            };
            k = k + 1;
        }
        proof {
            lemma_pow10_positive(k as nat);
            lemma_pow10_monotonic(k as nat, shift as nat);
            assert(dv * pow10(k as nat) <= dv * pow10(shift as nat)) by (nonlinear_arith)
                requires
                    dv >= 0,
                    pow10(k as nat) <= pow10(shift as nat),
            ;
            if acc == 0 {
                assert(dv == 0) by (nonlinear_arith)
                    requires
                        dv * pow10(k as nat) == 0,
                        pow10(k as nat) >= 1,
                        dv >= 0,
                ;
                assert(dv * pow10(shift as nat) == 0) by (nonlinear_arith)
                    requires
                        dv == 0,
                ;
            }
        }
        acc
    } else if (len as i128) + shift <= 0 {
        0
    } else {
        leading_digits(s, start, dot, end, ((len as i128) + shift) as usize, big)
    };
    if v > u32::MAX as u128 {
        u32::MAX
    } else {
        v as u32
    }
}


/// Reads the digits, point and exponent of `s[start..n]` as `finite_percent` describes.
#[verifier::rlimit(60)]
fn read_finite(s: &str, start: usize, n: usize, negative: bool) -> (r: Option<u32>)
    requires
        start <= n == s@.len(),
    ensures
        r == finite_percent(s@.subrange(start as int, n as int), negative),
{
    let ghost body = s@.subrange(start as int, n as int);
    let (mant_end, exp) = match find_exp_mark(s, start, n) {
        Some(k) => (start + k, read_exponent(s, start + k + 1, n)),
        None => (n, Some(0i128)),
    };
    let ghost mant = s@.subrange(start as int, mant_end as int);
    proof {
        lemma_exp_mark_bounds(body);
        if exp_mark_index(body) is Some {
            assert(body.take(mant_end - start) =~= mant);
            assert(body.subrange(mant_end - start + 1, body.len() as int) =~= s@.subrange(
                mant_end + 1,
                n as int,
            ));
        } else {
            assert(body =~= mant);
        }
    }
    let ghost e_spec: int = match exp_mark_index(body) {
        Some(k) => exponent(body.subrange(k + 1, body.len() as int))->Some_0,
        None => 0,
    };
    let e = match exp {
        Some(e) => e,
        None => return None,
    };
    let dot = match find_char(s, start, mant_end, '.') {
        Some(d) => start + d,
        None => mant_end,
    };
    let frac_start = if dot < mant_end {
        dot + 1
    } else {
        mant_end
    };
    let ghost whole = s@.subrange(start as int, dot as int);
    let ghost frac = s@.subrange(frac_start as int, mant_end as int);
    proof {
        if index_of(mant, '.') is Some {
            assert(mant.take(dot - start) =~= whole);
            assert(mant.subrange(dot - start + 1, mant.len() as int) =~= frac);
        } else {
            assert(mant =~= whole);
            assert(frac =~= Seq::<char>::empty());
        }
        assert(mantissa(s@, start as int, dot as int, mant_end as int) =~= whole + frac);
    }
    if digits_in(s, start, dot, 1).is_none() {
        return None;
    }
    if digits_in(s, frac_start, mant_end, 1).is_none() {
        return None;
    }
    let whole_len = dot - start;
    let frac_len = mant_end - frac_start;
    if whole_len == 0 && frac_len == 0 {
        return None;
    }
    if negative {
        return Some(0);
    }
    let len = whole_len + frac_len;
    proof {
        assert(all_digits(whole + frac)) by {
            assert forall|k: int| 0 <= k < (whole + frac).len() implies is_digit(
                #[trigger] (whole + frac)[k],
            ) by {
                if k >= whole.len() {
                    assert((whole + frac)[k] == frac[k - whole.len()]);
                }
            }
        }
        lemma_exponent_capped(whole + frac, e_spec, frac_len as int);
    }
    assert(mantissa(s@, start as int, dot as int, mant_end as int).len() == len);
    Some(shifted_saturated(s, start, dot, mant_end, e + 2 - frac_len as i128))
}

/// Reads a number in hundredths as `parse_percent` describes.
pub fn parse_hundredths(s: &str) -> (r: Option<u32>)
    ensures
        r == parse_percent(s@),
{
    let n = s.unicode_len();
    let first = if n > 0 {
        s.get_char(0)
    } else {
        ' '
    };
    let negative = n > 0 && first == '-';
    let start: usize = if n > 0 && (first == '+' || first == '-') {
        1
    } else {
        0
    };
    let ghost body = if s@.len() > 0 && (s@[0] == '+' || s@[0] == '-') {
        s@.drop_first()
    } else {
        s@
    };
    assert(s@.subrange(start as int, n as int) =~= body);
    proof {
        reveal_strlit("inf");
        reveal_strlit("infinity");
        reveal_strlit("nan");
    }
    if spells_word(s, start, n, "inf") || spells_word(s, start, n, "infinity") {
        return Some(
            if negative {
                0
            } else {
                u32::MAX
            },
        );
    }
    if spells_word(s, start, n, "nan") {
        return Some(0);
    }
    read_finite(s, start, n, negative)
}

} // verus!
