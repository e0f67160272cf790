use vstd::prelude::*;
use vstd::string::StringSliceAdditionalSpecFns;

verus! {

/// A decimal number held in millionths: `micros / 1_000_000`.
#[derive(Clone, Copy, PartialEq, Eq, Structural, Debug)]
pub struct Decimal {
    pub micros: i64,
}

/// Millionths in one unit.
pub const ONE: i64 = 1_000_000;

/// The largest whole part that a parsed number may have.
pub const MAX_WHOLE: u64 = 1_000_000_000_000;

/// An ASCII decimal digit.
pub open spec fn is_digit(c: u8) -> bool {
    48 <= c <= 57
}

pub open spec fn all_digits(b: Seq<u8>) -> bool {
    forall|i: int| 0 <= i < b.len() ==> is_digit(#[trigger] b[i])
}

/// The number that a string of decimal digits writes.
pub open spec fn digits_value(b: Seq<u8>) -> nat
    decreases b.len(),
{
    if b.len() == 0 {
        0
    } else {
        digits_value(b.drop_last()) * 10 + (b.last() - 48) as nat
    }
}

/// Index of the first `c` in `b`, or `b.len()` if there is none.
pub open spec fn first_index(b: Seq<u8>, c: u8) -> nat
    decreases b.len(),
{
    if b.len() == 0 {
        0
    } else if b[0] == c {
        0
    } else {
        1 + first_index(b.drop_first(), c)
    }
}

/// The largest size, in millionths, that a parsed number may have.
pub const MAX_MICROS: u64 = 2_000_000_000_000_000_000;

/// `10^k`.
pub open spec fn pow10(k: nat) -> nat
    decreases k,
{
    if k == 0 {
        1
    } else {
        10 * pow10((k - 1) as nat)
    }
}

/// Exactly `k` fractional digits: the first `k` of `f`, padded with zeros.
pub open spec fn pad_digits(f: Seq<u8>, k: nat) -> Seq<u8> {
    Seq::new(k, |i: int| if i < f.len() { f[i] } else { 48u8 })
}

/// Index of the first exponent mark `e` or `E` in `b`, or `b.len()`.
pub open spec fn first_exp(b: Seq<u8>) -> nat
    decreases b.len(),
{
    if b.len() == 0 {
        0
    } else if b[0] == 101 || b[0] == 69 {
        0
    } else {
        1 + first_exp(b.drop_first())
    }
}

/// The exponent written as `[+-]? digits`, of at most 99.
pub open spec fn exponent_of(t: Seq<u8>) -> Option<int> {
    let neg = t.len() > 0 && t[0] == 45;
    let signed = t.len() > 0 && (t[0] == 45 || t[0] == 43);
    let d = if signed { t.drop_first() } else { t };
    if d.len() > 0 && all_digits(d) && digits_value(d) <= 99 {
        Some(if neg { -(digits_value(d) as int) } else { digits_value(d) as int })
    } else {
        None
    }
}

/// The mantissa `[+-]? digits [. digits]`, with at least one digit and a
/// whole part of at most `MAX_WHOLE`, times `10^e`, in millionths, rounded
/// toward zero; if at most `MAX_MICROS`.
pub open spec fn mantissa_spec(b: Seq<u8>, e: int) -> Option<int> {
    let neg = b.len() > 0 && b[0] == 45;
    let signed = b.len() > 0 && (b[0] == 45 || b[0] == 43);
    let rest = if signed { b.drop_first() } else { b };
    let dot = first_index(rest, 46) as int;
    let whole = rest.subrange(0, dot);
    let frac = if dot < rest.len() { rest.subrange(dot + 1, rest.len() as int) } else { Seq::empty() };
    let m: int = if e >= 0 {
        (digits_value(whole) * pow10((6 + e) as nat) + digits_value(pad_digits(frac, (6 + e) as nat))) as int
    } else {
        ((digits_value(whole) * 1_000_000 + digits_value(pad_digits(frac, 6))) / pow10((-e) as nat)) as int
    };
    if all_digits(whole) && all_digits(frac) && whole.len() + frac.len() > 0
        && digits_value(whole) <= MAX_WHOLE && m <= MAX_MICROS {
        Some(if neg { -m } else { m })
    } else {
        None
    }
}

/// The number written as a mantissa `[+-]? digits [. digits]` and an optional
/// exponent `[eE] [+-]? digits` of at most 12, such as `-2.5`, `.5` or `1e-7`,
/// in millionths, rounded toward zero; see `mantissa_spec` for the limits.
pub open spec fn parse_decimal_spec(b: Seq<u8>) -> Option<int> {
    let x = first_exp(b) as int;
    let e = if x == b.len() { Some(0int) } else { exponent_of(b.subrange(x + 1, b.len() as int)) };
    match e {
        Some(e) => if e <= 12 { mantissa_spec(b.subrange(0, x), e) } else { None },
        None => None,
    }
}

/// The number written as `+? digits`, if it fits a `u8`.
pub open spec fn parse_u8_spec(b: Seq<u8>) -> Option<u8> {
    let rest = if b.len() > 0 && b[0] == 43 { b.drop_first() } else { b };
    if rest.len() > 0 && all_digits(rest) && digits_value(rest) <= 255 {
        Some(digits_value(rest) as u8)
    } else {
        None
    }
}

proof fn lemma_digits_value_push(b: Seq<u8>, c: u8)
    ensures
        digits_value(b.push(c)) == digits_value(b) * 10 + (c - 48) as nat,
{
    assert(b.push(c).drop_last() =~= b);
}

/// A longer string of digits is worth at least as much.
proof fn lemma_digits_value_mono(b: Seq<u8>, i: int)
    requires
        0 <= i <= b.len(),
        all_digits(b),
    ensures
        digits_value(b.subrange(0, i)) <= digits_value(b),
    decreases b.len() - i,
{
    if i < b.len() {
        lemma_digits_value_mono(b, i + 1);
        assert(b.subrange(0, i + 1).drop_last() =~= b.subrange(0, i));
        assert(is_digit(b[i]));
        assert(digits_value(b.subrange(0, i + 1)) == digits_value(b.subrange(0, i)) * 10 + (b[i]
            - 48) as nat);
    } else {
        assert(b.subrange(0, i) =~= b);
    }
}

/// The value of the digits `b[lo..hi]`, if they are all digits and it is at most `limit`.
fn digits_checked(b: &[u8], lo: usize, hi: usize, limit: u64) -> (r: Option<u64>)
    requires
        lo <= hi <= b@.len(),
        limit <= 1_000_000_000_000_000_000u64,
    ensures
        r == (if all_digits(b@.subrange(lo as int, hi as int)) && digits_value(
            b@.subrange(lo as int, hi as int),
        ) <= limit {
            Some(digits_value(b@.subrange(lo as int, hi as int)) as u64)
        } else {
            None::<u64>
        }),
{
    let ghost s = b@.subrange(lo as int, hi as int);
    let mut acc: u64 = 0;
    let mut i: usize = lo;
    while i < hi
        invariant
            lo <= i <= hi <= b@.len(),
            s == b@.subrange(lo as int, hi as int),
            limit <= 1_000_000_000_000_000_000u64,
            all_digits(s.subrange(0, i - lo)),
            acc as nat == digits_value(s.subrange(0, i - lo)),
            acc <= limit,
        decreases hi - i,
    {
        let c = b[i];
        proof {
            assert(s.subrange(0, i - lo + 1) =~= s.subrange(0, i - lo).push(c));
            lemma_digits_value_push(s.subrange(0, i - lo), c);
        }
        if c < 48 || c > 57 {
            assert(!is_digit(s[i - lo]));
            return None;
        }
        let next = acc * 10 + (c - 48) as u64;
        if next > limit {
            proof {
                if all_digits(s) {
                    lemma_digits_value_mono(s, i - lo + 1);
                }
            }
            return None;
        }
        acc = next;
        i = i + 1;
    }
    assert(s.subrange(0, i - lo) =~= s);
    Some(acc)
}

/// Whether `b[lo..hi]` are all digits.
fn digits_only(b: &[u8], lo: usize, hi: usize) -> (r: bool)
    requires
        lo <= hi <= b@.len(),
    ensures
        r == all_digits(b@.subrange(lo as int, hi as int)),
{
    let mut i: usize = lo;
    while i < hi
        invariant
            lo <= i <= hi <= b@.len(),
            forall|k: int| lo <= k < i ==> is_digit(b@[k]),
        decreases hi - i,
    {
        if b[i] < 48 || b[i] > 57 {
            assert(!is_digit(b@.subrange(lo as int, hi as int)[i - lo]));
            return false;
        }
        i = i + 1;
    }
    assert forall|k: int| 0 <= k < hi - lo implies is_digit(
        #[trigger] b@.subrange(lo as int, hi as int)[k],
    ) by {
        assert(is_digit(b@[lo + k]));
    }
    true
}

/// Index of the first `c` in `b`, or its length.
pub fn find_byte(b: &[u8], c: u8) -> (r: usize)
    ensures
        r == first_index(b@, c),
        r <= b@.len(),
        r < b@.len() ==> b@[r as int] == c,
{
    let mut i: usize = 0;
    while i < b.len()
        invariant
            i <= b@.len(),
            forall|k: int| 0 <= k < i ==> b@[k] != c,
        decreases b.len() - i,
    {
        if b[i] == c {
            proof {
                lemma_first_index_at(b@, c, i as int);
            }
            return i;
        }
        i = i + 1;
    }
    proof {
        lemma_first_index_at(b@, c, i as int);
    }
    i
}

proof fn lemma_first_index_at(b: Seq<u8>, c: u8, i: int)
    requires
        0 <= i <= b.len(),
        forall|k: int| 0 <= k < i ==> b[k] != c,
        i < b.len() ==> b[i] == c,
    ensures
        first_index(b, c) == i,
    decreases i,
{
    if i > 0 {
        lemma_first_index_at(b.drop_first(), c, i - 1);
    }
}

/// The decimal that `b` writes, if any.
pub open spec fn decimal_of(b: Seq<u8>) -> Option<Decimal> {
    match parse_decimal_spec(b) {
        Some(m) => Some(Decimal { micros: m as i64 }),
        None => None,
    }
}

/// Parses a decimal number such as `-2.5`, `0.125`, `3.`, `.5` or `1e-7`.
pub fn parse_decimal(s: &str) -> (r: Option<Decimal>)
    ensures
        r == decimal_of(s.spec_bytes()),
{
    parse_decimal_bytes(s.as_bytes())
}

/// Parses the decimal number that the bytes `b` write.
pub fn parse_decimal_bytes(b: &[u8]) -> (r: Option<Decimal>)
    ensures
        r == decimal_of(b@),
{
    let x = find_exp(b);
    let (mant, tail) = b.split_at(x);
    assert(mant@ =~= b@.subrange(0, x as int));
    let e: i64 = if x == b.len() {
        0
    } else {
        let (_, t) = tail.split_at(1);
        assert(t@ =~= b@.subrange(x + 1, b@.len() as int));
        match parse_exponent(t) {
            Some(e) => e,
            None => {
                return None;
            },
        }
    };
    if e > 12 {
        return None;
    }
    parse_mantissa(mant, e)
}

/// Index of the first `e` or `E` in `b`, or its length.
fn find_exp(b: &[u8]) -> (r: usize)
    ensures
        r == first_exp(b@),
        r <= b@.len(),
{
    let mut i: usize = 0;
    while i < b.len()
        invariant
            i <= b@.len(),
            forall|k: int| 0 <= k < i ==> b@[k] != 101 && b@[k] != 69,
        decreases b.len() - i,
    {
        if b[i] == 101 || b[i] == 69 {
            proof {
                lemma_first_exp_at(b@, i as int);
            }
            return i;
        }
        i = i + 1;
    }
    proof {
        lemma_first_exp_at(b@, i as int);
    }
    i
}

proof fn lemma_first_exp_at(b: Seq<u8>, i: int)
    requires
        0 <= i <= b.len(),
        forall|k: int| 0 <= k < i ==> b[k] != 101 && b[k] != 69,
        i < b.len() ==> b[i] == 101 || b[i] == 69,
    ensures
        first_exp(b) == i,
    decreases i,
{
    if i > 0 {
        lemma_first_exp_at(b.drop_first(), i - 1);
    }
}

/// Parses an exponent `[+-]? digits` of at most 99.
fn parse_exponent(t: &[u8]) -> (r: Option<i64>)
    ensures
        r matches Some(e) ==> exponent_of(t@) == Some(e as int) && -99 <= e <= 99,
        r is None ==> exponent_of(t@) is None,
{
    let neg = t.len() > 0 && t[0] == 45;
    let signed = t.len() > 0 && (t[0] == 45 || t[0] == 43);
    let start: usize = if signed { 1 } else { 0 };
    let d = slice_from(t, start);
    assert(d@ =~= (if signed { t@.drop_first() } else { t@ }));
    assert(d@.subrange(0, d@.len() as int) =~= d@);
    if d.len() == 0 {
        return None;
    }
    match digits_checked(d, 0, d.len(), 99) {
        Some(v) => if neg { Some(-(v as i64)) } else { Some(v as i64) },
        None => None,
    }
}

proof fn lemma_pow10_18()
    ensures
        pow10(18) == 1_000_000_000_000_000_000,
{
    reveal_with_fuel(pow10, 19);
}

proof fn lemma_pow10_mono(a: nat, b: nat)
    requires
        a <= b,
    ensures
        pow10(a) <= pow10(b),
    decreases b,
{
    if a < b {
        lemma_pow10_mono(a, (b - 1) as nat);
    }
}

proof fn lemma_pow10_pos(k: nat)
    ensures
        pow10(k) >= 1,
    decreases k,
{
    if k > 0 {
        lemma_pow10_pos((k - 1) as nat);
    }
}

/// `10^k`, computed.
fn pow10_exec(k: u64) -> (r: u128)
    requires
        k <= 18,
    ensures
        r == pow10(k as nat),
        r <= 1_000_000_000_000_000_000,
{
    proof {
        lemma_pow10_18();
    }
    let mut r: u128 = 1;
    let mut i: u64 = 0;
    while i < k
        invariant
            i <= k <= 18,
            r == pow10(i as nat),
            pow10(18) == 1_000_000_000_000_000_000,
        decreases k - i,
    {
        proof {
            lemma_pow10_mono((i + 1) as nat, 18);
        }
        r = r * 10;
        i = i + 1;
    }
    proof {
        lemma_pow10_mono(k as nat, 18);
    }
    r
}

/// `x / 10^k`, computed by dividing by ten `k` times.
fn div_pow10(x: u128, k: u64) -> (r: u128)
    ensures
        r == x as nat / pow10(k as nat),
{
    let mut r: u128 = x;
    let mut i: u64 = 0;
    proof {
        assert(pow10(0) == 1);
        assert(x as nat / 1 == x as nat);
    }
    while i < k
        invariant
            i <= k,
            r == x as nat / pow10(i as nat),
        decreases k - i,
    {
        proof {
            lemma_pow10_pos(i as nat);
            vstd::arithmetic::div_mod::lemma_div_denominator(x as int, pow10(i as nat) as int, 10);
            assert(pow10((i + 1) as nat) == pow10(i as nat) * 10);
        }
        r = r / 10;
        i = i + 1;
    }
    r
}

/// The mantissa `b` times `10^e`, in millionths.
fn parse_mantissa(b: &[u8], e: i64) -> (r: Option<Decimal>)
    requires
        -99 <= e <= 12,
    ensures
        r == (match mantissa_spec(b@, e as int) {
            Some(m) => Some(Decimal { micros: m as i64 }),
            None => None,
        }),
{
    let ghost bs = b@;
    let neg = b.len() > 0 && b[0] == 45;
    let signed = b.len() > 0 && (b[0] == 45 || b[0] == 43);
    let start: usize = if signed { 1 } else { 0 };
    let rest = slice_from(b, start);
    let ghost rs = if signed { bs.drop_first() } else { bs };
    assert(rest@ =~= rs);
    let dot = find_byte(rest, 46);
    let whole = digits_checked(rest, 0, dot, MAX_WHOLE);
    let ghost frac_s: Seq<u8> = if dot < rest@.len() { rs.subrange(dot + 1, rs.len() as int) } else { Seq::empty() };
    let frac_lo: usize = if dot < rest.len() { dot + 1 } else { rest.len() };
    assert(rest@.subrange(frac_lo as int, rest@.len() as int) =~= frac_s);
    let kept: u64 = if e >= 0 { 6 + e as u64 } else { 6 };
    let mut pad: Vec<u8> = Vec::new();
    let mut k: u64 = 0;
    while k < kept
        invariant
            k <= kept <= 18,
            frac_lo <= rest@.len(),
            frac_s == rest@.subrange(frac_lo as int, rest@.len() as int),
            pad@ == pad_digits(frac_s, kept as nat).take(k as int),
        decreases kept - k,
    {
        if (k as usize) < rest.len() - frac_lo {
            pad.push(rest[frac_lo + k as usize]);
        } else {
            pad.push(48);
        }
        k = k + 1;
        assert(pad@ =~= pad_digits(frac_s, kept as nat).take(k as int));
    }
    assert(pad@ =~= pad_digits(frac_s, kept as nat));
    let frac_ok = digits_only(rest, frac_lo, rest.len());
    let frac = digits_checked(pad.as_slice(), 0, pad.len(), 1_000_000_000_000_000_000);
    assert(pad@.subrange(0, pad@.len() as int) =~= pad@);
    proof {
        lemma_pow10_18();
        if all_digits(frac_s) {
            assert(all_digits(pad_digits(frac_s, kept as nat)));
            lemma_digits_bound(pad_digits(frac_s, kept as nat));
            lemma_pow10_mono(kept as nat, 18);
        }
    }
    assert(rest@.subrange(0, dot as int) =~= rs.subrange(0, dot as int));
    if dot == 0 && frac_lo == rest.len() {
        return None;
    }
    match (whole, frac_ok, frac) {
        (Some(w), true, Some(f)) => {
            let scale = pow10_exec(kept);
            assert(w as u128 * scale <= 1_000_000_000_000 * 1_000_000_000_000_000_000) by (nonlinear_arith)
                requires w <= 1_000_000_000_000, scale <= 1_000_000_000_000_000_000;
            let wide: u128 = w as u128 * scale + f as u128;
            proof {
                if e < 0 {
                    assert(pow10(6) == 1_000_000) by {
                        reveal_with_fuel(pow10, 7);
                    }
                }
            }
            let m: u128 = if e >= 0 { wide } else { div_pow10(wide, (-e) as u64) };
            if m > MAX_MICROS as u128 {
                return None;
            }
            if neg {
                Some(Decimal { micros: -(m as i64) })
            } else {
                Some(Decimal { micros: m as i64 })
            }
        },
        _ => None,
    }
}

/// `n` digits write a number below `10^n`.
proof fn lemma_digits_bound(b: Seq<u8>)
    requires
        all_digits(b),
    ensures
        digits_value(b) < pow10(b.len()),
    decreases b.len(),
{
    if b.len() > 0 {
        assert(all_digits(b.drop_last()));
        lemma_digits_bound(b.drop_last());
        assert(is_digit(b[b.len() - 1]));
    }
}

/// `b[start..]`.
fn slice_from(b: &[u8], start: usize) -> (r: &[u8])
    requires
        start <= b@.len(),
    ensures
        r@ == b@.subrange(start as int, b@.len() as int),
{
    b.split_at(start).1
}

/// Parses an unsigned byte such as `0`, `+7` or `255`.
pub fn parse_u8(s: &str) -> (r: Option<u8>)
    ensures
        r == parse_u8_spec(s.spec_bytes()),
{
    parse_u8_bytes(s.as_bytes())
}

/// Parses the unsigned byte that the bytes `b` write.
pub fn parse_u8_bytes(b: &[u8]) -> (r: Option<u8>)
    ensures
        r == parse_u8_spec(b@),
{
    let start: usize = if b.len() > 0 && b[0] == 43 { 1 } else { 0 };
    let rest = slice_from(b, start);
    assert(rest@ =~= (if b@.len() > 0 && b@[0] == 43 { b@.drop_first() } else { b@ }));
    assert(rest@.subrange(0, rest@.len() as int) =~= rest@);
    if rest.len() == 0 {
        return None;
    }
    match digits_checked(rest, 0, rest.len(), 255) {
        Some(v) => Some(v as u8),
        None => None,
    }
}

} // verus!
