//! Decimal strings as fixed-point integers with `PRICE_SCALE` units per whole
//! unit, the form in which venues publish prices and sizes.
use vstd::prelude::*;
use vstd::string::StrSliceExecFns;
use crate::exchange::symbols::{first_index_of, lemma_first_index_of};

verus! {

/// Digits of the fraction that a fixed-point value keeps.
pub const FRACTION_DIGITS: usize = 8;

/// Exponents are read up to this magnitude; any larger one gives the same
/// reading, as the text is far shorter.
pub const EXPONENT_CAP: i128 = 1_267_650_600_228_229_401_496_703_205_376;

pub open spec fn is_digit(c: char) -> bool {
    '0' <= c && c <= '9'
}

pub open spec fn all_digits(s: Seq<char>) -> bool {
    forall|i: int| 0 <= i < s.len() ==> is_digit(#[trigger] s[i])
}

/// The number that a run of decimal digits writes.
pub open spec fn digits_value(s: Seq<char>) -> int
    decreases s.len(),
{
    if s.len() == 0 {
        0
    } else {
        digits_value(s.drop_last()) * 10 + (s.last() as int - '0' as int)
    }
}

proof fn lemma_digits_nonneg(s: Seq<char>)
    requires
        all_digits(s),
    ensures
        digits_value(s) >= 0,
    decreases s.len(),
{
    if s.len() > 0 {
        lemma_digits_nonneg(s.drop_last());
    }
}

/// A longer run of digits is worth at least as much as its prefix.
proof fn lemma_digits_prefix(s: Seq<char>, k: int)
    requires
        all_digits(s),
        0 <= k <= s.len(),
    ensures
        digits_value(s.take(k)) <= digits_value(s),
    decreases s.len(),
{
    if k < s.len() {
        lemma_digits_prefix(s.drop_last(), k);
        assert(s.drop_last().take(k) =~= s.take(k));
        lemma_digits_nonneg(s.drop_last());
    } else {
        assert(s.take(k) =~= s);
    }
}

/// Ten to the power `n`.
pub open spec fn pow10(n: nat) -> int
    decreases n,
{
    if n == 0 {
        1
    } else {
        10 * pow10((n - 1) as nat)
    }
}

proof fn lemma_digits_push(s: Seq<char>, c: char)
    ensures
        digits_value(s.push(c)) == digits_value(s) * 10 + (c as int - '0' as int),
{
    assert(s.push(c).drop_last() =~= s);
}

/// Whether `s[from..to]` are all digits.
fn digits_only(s: &str, from: usize, to: usize) -> (r: bool)
    requires
        from <= to <= s@.len(),
    ensures
        r == all_digits(s@.subrange(from as int, to as int)),
{
    let mut i: usize = from;
    while i < to
        invariant
            from <= i <= to <= s@.len(),
            forall|m: int| from <= m < i ==> is_digit(#[trigger] s@[m]),
        decreases to - i,
    {
        let c = s.get_char(i);
        if c < '0' || c > '9' {
            assert(s@.subrange(from as int, to as int)[i - from] == c);
            return false;
        }
        i = i + 1;
    }
    assert forall|m: int| 0 <= m < to - from implies is_digit(
        #[trigger] s@.subrange(from as int, to as int)[m],
    ) by {
        assert(s@.subrange(from as int, to as int)[m] == s@[from + m]);
    }
    true
}

proof fn lemma_pow10_split(a: nat, b: nat)
    ensures
        pow10(a + b) == pow10(a) * pow10(b),
        pow10(b) > 0,
    decreases b,
{
    if b > 0 {
        lemma_pow10_split(a, (b - 1) as nat);
        assert(pow10(a + b) == 10 * pow10((a + b - 1) as nat));
        assert(pow10(a) * (10 * pow10((b - 1) as nat)) == 10 * (pow10(a) * pow10((b - 1) as nat)))
            by (nonlinear_arith);
    }
}

proof fn lemma_pow10_monotone(a: nat, b: nat)
    requires
        a <= b,
    ensures
        0 < pow10(a) <= pow10(b),
    decreases b,
{
    if b > a {
        lemma_pow10_monotone(a, (b - 1) as nat);
    } else {
        lemma_pow10_split(0, a);
    }
}


/// `s` without one leading `+`.
pub open spec fn unsigned_part(s: Seq<char>) -> Seq<char> {
    if s.len() > 0 && s[0] == '+' {
        s.drop_first()
    } else {
        s
    }
}

/// The position of the first `e` or `E` in `s`.
pub open spec fn exponent_mark(s: Seq<char>) -> Option<int>
    decreases s.len(),
{
    if s.len() == 0 {
        None
    } else if s[0] == 'e' || s[0] == 'E' {
        Some(0)
    } else {
        match exponent_mark(s.drop_first()) {
            Some(k) => Some(k + 1),
            None => None,
        }
    }
}

/// The exponent written by `t`: an optional sign and at least one digit.
pub open spec fn exponent_value(t: Seq<char>) -> Option<int> {
    let negative = t.len() > 0 && t[0] == '-';
    let d = if t.len() > 0 && (t[0] == '-' || t[0] == '+') {
        t.drop_first()
    } else {
        t
    };
    if d.len() > 0 && all_digits(d) {
        Some(
            if negative {
                -digits_value(d)
            } else {
                digits_value(d)
            },
        )
    } else {
        None
    }
}

/// The digits `g` read with the unit point after the first `p` of them,
/// rounded down: digits past the point are dropped, missing ones are zeros.
pub open spec fn shifted_value(g: Seq<char>, p: int) -> int {
    if p <= 0 {
        0
    } else if p <= g.len() {
        digits_value(g.take(p))
    } else {
        digits_value(g) * pow10((p - g.len()) as nat)
    }
}

/// The mantissa `m` (`digits`, `digits.`, `.digits` or `digits.digits`)
/// times ten to the `e`, in units of `1 / PRICE_SCALE`, rounded down.
pub open spec fn mantissa_units(m: Seq<char>, e: int) -> Option<int> {
    let whole = match first_index_of(m, '.') {
        Some(k) => m.take(k),
        None => m,
    };
    let fraction = match first_index_of(m, '.') {
        Some(k) => m.skip(k + 1),
        None => Seq::<char>::empty(),
    };
    if whole.len() + fraction.len() > 0 && all_digits(whole) && all_digits(fraction) {
        Some(shifted_value(whole + fraction, whole.len() + e + FRACTION_DIGITS))
    } else {
        None
    }
}

/// A non-negative decimal number, with an optional leading `+` and an
/// optional exponent (`e` or `E`, an optional sign, digits), in units of
/// `1 / PRICE_SCALE` rounded down; `None` for any other text.
pub open spec fn decimal_units(s: Seq<char>) -> Option<int> {
    let u = unsigned_part(s);
    match exponent_mark(u) {
        None => mantissa_units(u, 0),
        Some(k) => match exponent_value(u.skip(k + 1)) {
            Some(e) => mantissa_units(u.take(k), e),
            None => None,
        },
    }
}

/// What reading a decimal gives.
#[derive(Clone, Copy, Debug, PartialEq, Eq, Structural)]
pub enum Reading {
    /// A number that fits, in units of `1 / PRICE_SCALE`.
    Units(u64),
    /// A number beyond `u64::MAX` units.
    TooLarge,
    /// Text that is not a decimal number.
    Invalid,
}

pub open spec fn reading_of_value(v: int) -> Reading {
    if v <= u64::MAX {
        Reading::Units(v as u64)
    } else {
        Reading::TooLarge
    }
}

/// The reading of the text `s`.
pub open spec fn reading_of(s: Seq<char>) -> Reading {
    match decimal_units(s) {
        Some(v) => reading_of_value(v),
        None => Reading::Invalid,
    }
}

/// A price: `None` unless the text is a number that fits.
pub open spec fn price_of(s: Seq<char>) -> Option<u64> {
    match reading_of(s) {
        Reading::Units(v) => Some(v),
        _ => None,
    }
}

/// A size: `None` unless the text is a number; one beyond `u64::MAX` units
/// is held at `u64::MAX`.
pub open spec fn size_of(s: Seq<char>) -> Option<u64> {
    match reading_of(s) {
        Reading::Units(v) => Some(v),
        Reading::TooLarge => Some(u64::MAX),
        Reading::Invalid => None,
    }
}


proof fn lemma_exponent_mark(s: Seq<char>, k: int)
    requires
        0 <= k <= s.len(),
        forall|m: int| 0 <= m < k ==> s[m] != 'e' && s[m] != 'E',
    ensures
        k < s.len() && (s[k] == 'e' || s[k] == 'E') ==> exponent_mark(s) == Some(k),
        k == s.len() ==> exponent_mark(s) is None,
    decreases k,
{
    if k > 0 {
        lemma_exponent_mark(s.drop_first(), k - 1);
    }
}

proof fn lemma_shift_nonneg(g: Seq<char>, p: int)
    requires
        all_digits(g),
    ensures
        shifted_value(g, p) >= 0,
{
    lemma_digits_nonneg(g);
    if 0 < p <= g.len() {
        assert(all_digits(g.take(p)));
        lemma_digits_nonneg(g.take(p));
    } else if p > g.len() {
        lemma_pow10_split(0, (p - g.len()) as nat);
        assert(digits_value(g) * pow10((p - g.len()) as nat) >= 0) by (nonlinear_arith)
            requires digits_value(g) >= 0, pow10((p - g.len()) as nat) > 0;
    }
}

/// Twenty or more places past the digits, the value is zero or beyond `u64`.
proof fn lemma_shift_far(g: Seq<char>, p: int)
    requires
        all_digits(g),
        p >= g.len() + 20,
    ensures
        digits_value(g) == 0 ==> shifted_value(g, p) == 0,
        digits_value(g) != 0 ==> shifted_value(g, p) > u64::MAX,
{
    lemma_digits_nonneg(g);
    lemma_pow10_monotone(20, (p - g.len()) as nat);
    reveal_with_fuel(pow10, 21);
    assert(pow10(20) == 100_000_000_000_000_000_000);
    if digits_value(g) != 0 {
        assert(digits_value(g) * pow10((p - g.len()) as nat) > u64::MAX) by (nonlinear_arith)
            requires digits_value(g) >= 1, pow10((p - g.len()) as nat) >= 100_000_000_000_000_000_000;
    }
}

/// Reading with the exponent held to `EXPONENT_CAP` gives the same result.
proof fn lemma_clamped_shift(g: Seq<char>, w: int, e: int, c: int)
    requires
        all_digits(g),
        0 <= w <= g.len(),
        g.len() + 20 <= EXPONENT_CAP,
        c == if e > EXPONENT_CAP {
            EXPONENT_CAP as int
        } else if e < -EXPONENT_CAP {
            -EXPONENT_CAP
        } else {
            e
        },
    ensures
        reading_of_value(shifted_value(g, w + e + FRACTION_DIGITS)) == reading_of_value(
            shifted_value(g, w + c + FRACTION_DIGITS),
        ),
{
    if e > EXPONENT_CAP {
        lemma_shift_far(g, w + e + FRACTION_DIGITS);
        lemma_shift_far(g, w + c + FRACTION_DIGITS);
    }
}


/// Appends the characters `s[from..to]` to `g`.
fn push_chars(g: &mut Vec<char>, s: &str, from: usize, to: usize)
    requires
        from <= to <= s@.len(),
    ensures
        final(g)@ == old(g)@ + s@.subrange(from as int, to as int),
{
    let mut i: usize = from;
    while i < to
        invariant
            from <= i <= to <= s@.len(),
            g@ == old(g)@ + s@.subrange(from as int, i as int),
        decreases to - i,
    {
        let c = s.get_char(i);
        g.push(c);
        assert(s@.subrange(from as int, i + 1) =~= s@.subrange(from as int, i as int).push(c));
        assert(g@ =~= old(g)@ + s@.subrange(from as int, i + 1));
        i = i + 1;
    }
}

/// The value of the first `m` digits of `g`, if it fits in a `u64`.
fn prefix_value(g: &Vec<char>, m: usize) -> (r: Option<u64>)
    requires
        all_digits(g@),
        m <= g@.len(),
    ensures
        digits_value(g@.take(m as int)) <= u64::MAX ==> r == Some(
            digits_value(g@.take(m as int)) as u64,
        ),
        digits_value(g@.take(m as int)) > u64::MAX ==> r is None,
{
    let ghost t = g@.take(m as int);
    assert(all_digits(t));
    let mut acc: u64 = 0;
    let mut i: usize = 0;
    assert(g@.take(0) =~= Seq::<char>::empty());
    while i < m
        invariant
            i <= m <= g@.len(),
            all_digits(g@),
            t == g@.take(m as int),
            all_digits(t),
            acc as int == digits_value(g@.take(i as int)),
        decreases m - i,
    {
        let c = g[i];
        assert(is_digit(g@[i as int]));
        assert(g@.take(i + 1) =~= g@.take(i as int).push(c));
        proof {
            lemma_digits_push(g@.take(i as int), c);
        }
        let d = (c as u32 - '0' as u32) as u64;
        if acc > (u64::MAX - d) / 10 {
            proof {
                assert(t.take(i + 1) =~= g@.take(i + 1));
                lemma_digits_prefix(t, i + 1);
            }
            return None;
        }
        acc = acc * 10 + d;
        i = i + 1;
    }
    proof {
        lemma_digits_nonneg(t);
    }
    Some(acc)
}

/// The exponent written by `s[from..to]`, held to `EXPONENT_CAP` in magnitude.
fn exponent_at(s: &str, from: usize, to: usize) -> (r: Option<i128>)
    requires
        from <= to <= s@.len(),
    ensures
        match exponent_value(s@.subrange(from as int, to as int)) {
            Some(e) => r == Some(
                (if e > EXPONENT_CAP {
                    EXPONENT_CAP as int
                } else if e < -EXPONENT_CAP {
                    -EXPONENT_CAP
                } else {
                    e
                }) as i128,
            ),
            None => r is None,
        },
{
    let ghost t = s@.subrange(from as int, to as int);
    let mut i: usize = from;
    let mut negative = false;
    if from < to {
        let c = s.get_char(from);
        assert(t[0] == c);
        if c == '-' || c == '+' {
            negative = c == '-';
            i = from + 1;
        }
    }
    let ghost d = s@.subrange(i as int, to as int);
    assert(d =~= if t.len() > 0 && (t[0] == '-' || t[0] == '+') { t.drop_first() } else { t });
    if i == to || !digits_only(s, i, to) {
        return None;
    }
    let cap: u128 = EXPONENT_CAP as u128;
    let mut acc: u128 = 0;
    let mut k: usize = i;
    assert(s@.subrange(i as int, i as int) =~= Seq::<char>::empty());
    while k < to
        invariant
            i <= k <= to <= s@.len(),
            d == s@.subrange(i as int, to as int),
            all_digits(d),
            cap == EXPONENT_CAP,
            acc as int == if digits_value(s@.subrange(i as int, k as int)) > EXPONENT_CAP {
                EXPONENT_CAP as int
            } else {
                digits_value(s@.subrange(i as int, k as int))
            },
            digits_value(s@.subrange(i as int, k as int)) >= 0,
        decreases to - k,
    {
        let c = s.get_char(k);
        assert(d[k - i] == c);
        assert(s@.subrange(i as int, k + 1) =~= s@.subrange(i as int, k as int).push(c));
        proof {
            lemma_digits_push(s@.subrange(i as int, k as int), c);
        }
        let next: u128 = acc * 10 + (c as u32 - '0' as u32) as u128;
        acc = if next > cap { cap } else { next };
        k = k + 1;
    }
    assert(s@.subrange(i as int, k as int) =~= d);
    if negative {
        Some(-(acc as i128))
    } else {
        Some(acc as i128)
    }
}

/// The reading of the digits `g` with the unit point after `p` of them.
fn shifted_units(g: &Vec<char>, p: i128) -> (r: Reading)
    requires
        all_digits(g@),
    ensures
        r == reading_of_value(shifted_value(g@, p as int)),
{
    proof {
        lemma_shift_nonneg(g@, p as int);
    }
    if p <= 0 {
        return Reading::Units(0);
    }
    let len = g.len();
    if p <= len as i128 {
        return match prefix_value(g, p as usize) {
            Some(v) => Reading::Units(v),
            None => Reading::TooLarge,
        };
    }
    assert(g@.take(len as int) =~= g@);
    proof {
        lemma_digits_nonneg(g@);
        lemma_pow10_split(0, (p - len) as nat);
    }
    match prefix_value(g, len) {
        None => {
            assert(digits_value(g@) * pow10((p - len) as nat) > u64::MAX) by (nonlinear_arith)
                requires digits_value(g@) > u64::MAX, pow10((p - len) as nat) >= 1;
            Reading::TooLarge
        },
        Some(v) => {
            if v == 0 {
                assert(digits_value(g@) * pow10((p - len) as nat) == 0) by (nonlinear_arith)
                    requires digits_value(g@) == 0;
                return Reading::Units(0);
            }
            if p - len as i128 >= 20 {
                proof {
                    lemma_shift_far(g@, p as int);
                }
                return Reading::TooLarge;
            }
            let extra: usize = (p - len as i128) as usize;
            assert(shifted_value(g@, p as int) == v * pow10(extra as nat));
            let mut acc: u64 = v;
            let mut i: usize = 0;
            assert(pow10(0) == 1);
            while i < extra
                invariant
                    i <= extra < 20,
                    extra == p - len,
                    v >= 1,
                    v as int == digits_value(g@),
                    acc as int == v * pow10(i as nat),
                    shifted_value(g@, p as int) == v * pow10(extra as nat),
                decreases extra - i,
            {
                assert(pow10((i + 1) as nat) == 10 * pow10(i as nat));
                if acc > u64::MAX / 10 {
                    proof {
                        lemma_pow10_monotone((i + 1) as nat, extra as nat);
                        assert(v * pow10(extra as nat) > u64::MAX) by (nonlinear_arith)
                            requires
                                acc > u64::MAX / 10,
                                acc as int == v * pow10(i as nat),
                                pow10((i + 1) as nat) == 10 * pow10(i as nat),
                                pow10((i + 1) as nat) <= pow10(extra as nat),
                                v >= 1;
                    }
                    return Reading::TooLarge;
                }
                proof {
                    assert(acc as int * 10 == v * pow10((i + 1) as nat)) by (nonlinear_arith)
                        requires
                            acc as int == v * pow10(i as nat),
                            pow10((i + 1) as nat) == 10 * pow10(i as nat);
                }
                acc = acc * 10;
                i = i + 1;
            }
            Reading::Units(acc)
        },
    }
}

/// Reads a non-negative decimal number, with an optional leading `+` and an
/// optional exponent, as fixed-point units rounded down.
#[verifier::rlimit(60)]
pub fn read_decimal(s: &str) -> (r: Reading)
    ensures
        r == reading_of(s@),
{
    let n = s.unicode_len();
    let start: usize = if n > 0 && s.get_char(0) == '+' {
        1
    } else {
        0
    };
    let ghost u = unsigned_part(s@);
    assert(u =~= s@.subrange(start as int, n as int));
    let mut k: usize = start;
    while k < n && s.get_char(k) != 'e' && s.get_char(k) != 'E'
        invariant
            n == s@.len(),
            start <= k <= n,
            u == s@.subrange(start as int, n as int),
            forall|m: int| start <= m < k ==> s@[m] != 'e' && s@[m] != 'E',
        decreases n - k,
    {
        k = k + 1;
    }
    proof {
        assert forall|m: int| 0 <= m < k - start implies u[m] != 'e' && u[m] != 'E' by {
            assert(u[m] == s@[start + m]);
        }
        lemma_exponent_mark(u, k - start);
    }
    let ghost m = if k < n { u.take(k - start) } else { u };
    assert(m =~= s@.subrange(start as int, k as int));
    let ghost exact: int = if k < n {
        match exponent_value(u.skip(k - start + 1)) {
            Some(x) => x,
            None => 0,
        }
    } else {
        0
    };
    let e: i128 = if k < n {
        assert(u.skip(k - start + 1) =~= s@.subrange(k + 1, n as int));
        match exponent_at(s, k + 1, n) {
            Some(x) => x,
            None => {
                return Reading::Invalid;
            },
        }
    } else {
        0
    };
    let mut dp: usize = start;
    while dp < k && s.get_char(dp) != '.'
        invariant
            start <= dp <= k <= n,
            n == s@.len(),
            m == s@.subrange(start as int, k as int),
            forall|j: int| start <= j < dp ==> s@[j] != '.',
        decreases k - dp,
    {
        dp = dp + 1;
    }
    proof {
        assert forall|j: int| 0 <= j < dp - start implies m[j] != '.' by {
            assert(m[j] == s@[start + j]);
        }
        lemma_first_index_of(m, '.', dp - start);
    }
    let frac_from: usize = if dp < k {
        dp + 1
    } else {
        k
    };
    let ghost whole = s@.subrange(start as int, dp as int);
    let ghost fraction = s@.subrange(frac_from as int, k as int);
    assert(whole =~= (match first_index_of(m, '.') {
        Some(j) => m.take(j),
        None => m,
    }));
    assert(fraction =~= (match first_index_of(m, '.') {
        Some(j) => m.skip(j + 1),
        None => Seq::<char>::empty(),
    }));
    if !digits_only(s, start, dp) || !digits_only(s, frac_from, k) || (dp - start) + (k - frac_from)
        == 0 {
        return Reading::Invalid;
    }
    let mut g: Vec<char> = Vec::new();
    push_chars(&mut g, s, start, dp);
    push_chars(&mut g, s, frac_from, k);
    assert(g@ =~= whole + fraction);
    assert(all_digits(g@)) by {
        assert forall|j: int| 0 <= j < g@.len() implies is_digit(#[trigger] g@[j]) by {
            if j < whole.len() {
                assert(g@[j] == whole[j]);
            } else {
                assert(g@[j] == fraction[j - whole.len()]);
            }
        }
    }
    let p: i128 = (dp - start) as i128 + e + FRACTION_DIGITS as i128;
    proof {
        lemma_clamped_shift(g@, whole.len() as int, exact, e as int);
    }
    shifted_units(&g, p)
}

/// Reads a price: `None` unless the text is a number that fits in a `u64`.
pub fn parse_units(s: &str) -> (r: Option<u64>)
    ensures
        r == price_of(s@),
{
    match read_decimal(s) {
        Reading::Units(v) => Some(v),
        _ => None,
    }
}

/// Reads a size: `None` unless the text is a number; one beyond `u64::MAX`
/// units is held at `u64::MAX`.
pub fn parse_size(s: &str) -> (r: Option<u64>)
    ensures
        r == size_of(s@),
{
    match read_decimal(s) {
        Reading::Units(v) => Some(v),
        Reading::TooLarge => Some(u64::MAX),
        Reading::Invalid => None,
    }
}

} // verus!
