//! Decimal numbers in text, read with the precision of binary64.

use vstd::arithmetic::div_mod::*;
use vstd::arithmetic::power2::*;
use vstd::prelude::*;

use crate::rounding::{
    half_even, lemma_half_even, lemma_hundredth, lemma_nearest_at, lemma_nearest_rough,
    lemma_thousandfold, lemma_whole_of, nearest, one, whole,
};
use crate::text::{chars_of, find, is_digit, raised};

verus! {

// ---------------------------------------------------------------------------
// What a text denotes
// ---------------------------------------------------------------------------

/// Ten to the power `n`.
pub open spec fn pow10(n: nat) -> nat
    decreases n,
{
    if n == 0 {
        1
    } else {
        10 * pow10((n - 1) as nat)
    }
}

/// The number that a row of digit values denotes.
pub open spec fn num(digits: Seq<u8>) -> nat
    decreases digits.len(),
{
    if digits.len() == 0 {
        0
    } else {
        num(digits.drop_last()) * 10 + digits.last() as nat
    }
}

/// The values of a row of digits.
pub open spec fn digit_values(s: Seq<char>) -> Seq<u8> {
    s.map_values(|c: char| (c as u32 - 48) as u8)
}

/// Digits only.
pub open spec fn all_digits(s: Seq<char>) -> bool {
    forall|i: int| 0 <= i < s.len() ==> is_digit(#[trigger] s[i])
}

/// A number as a text spells it: `digits` times ten to the power `exponent`.
pub enum Number {
    NotANumber,
    Infinite { negative: bool },
    Finite { negative: bool, digits: nat, exponent: int },
}

/// A sign in front.
pub open spec fn has_sign(s: Seq<char>) -> bool {
    s.len() > 0 && (s[0] == '+' || s[0] == '-')
}

/// `s` without the sign in front.
pub open spec fn unsigned(s: Seq<char>) -> Seq<char> {
    if has_sign(s) {
        s.skip(1)
    } else {
        s
    }
}

/// A minus sign in front.
pub open spec fn is_negative(s: Seq<char>) -> bool {
    s.len() > 0 && s[0] == '-'
}

/// `s` is the upper-case `word`, in whatever case.
pub open spec fn spells(s: Seq<char>, word: Seq<char>) -> bool {
    s.map_values(|c: char| raised(c)) == word
}

/// The place of the exponent mark, or the length of `s` where there is none.
pub open spec fn mark_place(s: Seq<char>) -> int {
    if find(s, 'e') <= find(s, 'E') {
        find(s, 'e')
    } else {
        find(s, 'E')
    }
}

/// The digits in front of the exponent mark, as one number, and how many of them stand
/// behind the point: digits with at most one point among them, and at least one digit.
pub open spec fn significand(s: Seq<char>) -> Option<(nat, nat)> {
    let k = find(s, '.');
    let before = s.take(k);
    let after = if k < s.len() {
        s.skip(k + 1)
    } else {
        Seq::empty()
    };
    if all_digits(before) && all_digits(after) && before.len() + after.len() > 0 {
        Some((num(digit_values(before + after)), after.len()))
    } else {
        None
    }
}

/// What stands behind the exponent mark: digits, with a sign in front or not.
pub open spec fn power_of_ten(s: Seq<char>) -> Option<int> {
    let u = unsigned(s);
    if all_digits(u) && u.len() > 0 {
        let n = num(digit_values(u)) as int;
        Some(
            if is_negative(s) {
                -n
            } else {
                n
            },
        )
    } else {
        None
    }
}

/// The number that `s` spells.
pub open spec fn number(s: Seq<char>) -> Option<Number> {
    let body = unsigned(s);
    let negative = is_negative(s);
    let k = mark_place(body);
    if spells(body, seq!['N', 'A', 'N']) {
        Some(Number::NotANumber)
    } else if spells(body, seq!['I', 'N', 'F']) || spells(
        body,
        seq!['I', 'N', 'F', 'I', 'N', 'I', 'T', 'Y'],
    ) {
        Some(Number::Infinite { negative })
    } else {
        match significand(body.take(k)) {
            Some((digits, behind)) => if k < body.len() {
                match power_of_ten(body.skip(k + 1)) {
                    Some(power) => Some(
                        Number::Finite { negative, digits, exponent: power - behind },
                    ),
                    None => None,
                }
            } else {
                Some(Number::Finite { negative, digits, exponent: -behind })
            },
            None => None,
        }
    }
}

/// The binary64 number nearest to `digits` times ten to the power `exponent`, in units.
pub open spec fn units(digits: nat, exponent: int) -> nat {
    if exponent >= 0 {
        nearest(digits * pow10(exponent as nat) * one(), 1)
    } else {
        nearest(digits * one(), pow10((-exponent) as nat))
    }
}

/// A whole number as a `u32`, the largest one where it does not fit.
pub open spec fn saturated(n: nat) -> u32 {
    if n > u32::MAX {
        u32::MAX
    } else {
        n as u32
    }
}

// ---------------------------------------------------------------------------
// Powers of ten and rows of digits
// ---------------------------------------------------------------------------

pub proof fn lemma_pow10_pos(n: nat)
    ensures
        pow10(n) > 0,
    decreases n,
{
    if n > 0 {
        lemma_pow10_pos((n - 1) as nat);
    }
}

pub proof fn lemma_pow10_adds(a: nat, b: nat)
    ensures
        pow10(a + b) == pow10(a) * pow10(b),
    decreases a,
{
    if a > 0 {
        lemma_pow10_adds((a - 1) as nat, b);
        let x = pow10((a - 1) as nat);
        let y = pow10(b);
        assert((a + b - 1) as nat == (a - 1) as nat + b);
        assert(10 * (x * y) == (10 * x) * y) by (nonlinear_arith);
    } else {
        assert(pow10(0) * pow10(b) == pow10(b)) by (nonlinear_arith)
            requires
                pow10(0) == 1,
        ;
    }
}

pub proof fn lemma_pow10_grows(a: nat, b: nat)
    requires
        a <= b,
    ensures
        pow10(a) <= pow10(b),
    decreases b - a,
{
    if a < b {
        lemma_pow10_grows(a, (b - 1) as nat);
    }
}

/// Digit values, each below ten.
pub open spec fn small(digits: Seq<u8>) -> bool {
    forall|i: int| 0 <= i < digits.len() ==> #[trigger] digits[i] < 10
}

proof fn lemma_num_below(d: Seq<u8>)
    requires
        small(d),
    ensures
        num(d) < pow10(d.len()),
    decreases d.len(),
{
    if d.len() > 0 {
        assert(small(d.drop_last()));
        lemma_num_below(d.drop_last());
        assert(d.last() < 10);
    }
}

pub proof fn lemma_num_concat(a: Seq<u8>, b: Seq<u8>)
    ensures
        num(a + b) == num(a) * pow10(b.len()) + num(b),
    decreases b.len(),
{
    if b.len() == 0 {
        assert(a + b == a);
        assert(num(a) * pow10(0) == num(a)) by (nonlinear_arith)
            requires
                pow10(0) == 1,
        ;
    } else {
        let c = b.drop_last();
        lemma_num_concat(a, c);
        assert((a + b).drop_last() == a + c);
        assert((a + b).last() == b.last());
        let x = num(a);
        let p = pow10(c.len());
        assert((x * p + num(c)) * 10 == x * (10 * p) + num(c) * 10) by (nonlinear_arith);
    }
}

proof fn lemma_num_zeros(z: Seq<u8>)
    requires
        forall|i: int| 0 <= i < z.len() ==> #[trigger] z[i] == 0,
    ensures
        num(z) == 0,
    decreases z.len(),
{
    if z.len() > 0 {
        lemma_num_zeros(z.drop_last());
        assert(z.last() == 0);
    }
}

proof fn lemma_num_front(d: Seq<u8>)
    requires
        d.len() > 0,
    ensures
        num(d) == d[0] as nat * pow10((d.len() - 1) as nat) + num(d.skip(1)),
{
    lemma_num_concat(seq![d[0]], d.skip(1));
    assert(d == seq![d[0]] + d.skip(1));
    assert(seq![d[0]].drop_last() == Seq::<u8>::empty());
    assert(num(seq![d[0]].drop_last()) == 0);
    assert(num(seq![d[0]]) == d[0] as nat);
}

// ---------------------------------------------------------------------------
// Reading
// ---------------------------------------------------------------------------

/// A number as it was read. An exponent out of the range of anything that can matter may
/// be a nearer one on the same side.
enum Reading {
    NotANumber,
    Infinite { negative: bool },
    Finite { negative: bool, digits: Vec<u8>, exponent: i128 },
}

/// The exponent `read` stands for `exact`.
spec fn stands_for(read: int, exact: int) -> bool {
    ||| read == exact
    ||| read >= 1_000_000_000_000_000_000_000_000_000 && exact >= read
    ||| read <= -1_000_000_000_000_000_000_000_000_000 && exact <= read
}

/// `r` is a reading of `n`.
spec fn is_reading(r: Reading, n: Number) -> bool {
    match (r, n) {
        (Reading::NotANumber, Number::NotANumber) => true,
        (Reading::Infinite { negative: a }, Number::Infinite { negative: b }) => a == b,
        (
            Reading::Finite { negative: a, digits, exponent },
            Number::Finite { negative: b, digits: value, exponent: exact },
        ) => {
            &&& a == b
            &&& small(digits@)
            &&& num(digits@) == value
            &&& stands_for(exponent as int, exact)
        },
        _ => false,
    }
}

/// The place of the first `c` in `v[from..to]`, or `to`.
fn place_of(v: &Vec<char>, from: usize, to: usize, c: char) -> (r: usize)
    requires
        from <= to <= v@.len(),
    ensures
        from <= r <= to,
        r == from + find(v@.subrange(from as int, to as int), c),
{
    let ghost s = v@.subrange(from as int, to as int);
    let mut i: usize = from;
    while i < to && v[i] != c
        invariant
            from <= i <= to <= v@.len(),
            s == v@.subrange(from as int, to as int),
            forall|j: int| 0 <= j < i - from ==> s[j] != c,
        decreases to - i,
    {
        assert(s[i - from] == v@[i as int]);
        i = i + 1;
    }
    proof {
        if i < to {
            assert(s[i - from] == v@[i as int]);
        }
        crate::text::lemma_find_at(s, c, i - from);
    }
    i
}

/// Whether `v[from..]` is `word`, whatever the case of its letters.
fn is_word(v: &Vec<char>, from: usize, word: &[char]) -> (r: bool)
    requires
        from <= v@.len(),
    ensures
        r == spells(v@.skip(from as int), word@),
{
    let ghost s = v@.skip(from as int).map_values(|c: char| raised(c));
    if v.len() - from != word.len() {
        assert(s.len() != word@.len());
        return false;
    }
    for i in 0..word.len()
        invariant
            from + word@.len() == v.len(),
            s == v@.skip(from as int).map_values(|c: char| raised(c)),
            forall|j: int| 0 <= j < i ==> s[j] == word@[j],
    {
        let c: char = v[from + i];
        assert(s[i as int] == raised(c));
        let up: char = if 'a' <= c && c <= 'z' {
            ((c as u8) - 32) as char
        } else {
            c
        };
        if up != word[i] {
            return false;
        }
    }
    assert(s =~= word@);
    true
}

/// Appends the values of the digits in `v[from..to]`, and says whether digits are all there is.
fn push_digits(v: &Vec<char>, from: usize, to: usize, out: &mut Vec<u8>) -> (r: bool)
    requires
        from <= to <= v@.len(),
        small(old(out)@),
    ensures
        r == all_digits(v@.subrange(from as int, to as int)),
        r ==> final(out)@ == old(out)@ + digit_values(v@.subrange(from as int, to as int)),
        small(final(out)@),
{
    let ghost s = v@.subrange(from as int, to as int);
    for i in from..to
        invariant
            from <= to <= v@.len(),
            s == v@.subrange(from as int, to as int),
            out@ == old(out)@ + digit_values(s.take(i - from)),
            forall|j: int| 0 <= j < i - from ==> is_digit(#[trigger] s[j]),
            small(out@),
    {
        let c: char = v[i];
        assert(s[i - from] == c);
        if c < '0' || c > '9' {
            return false;
        }
        let d: u8 = (c as u8) - 48;
        out.push(d);
        assert(s.take(i - from + 1) == s.take(i - from).push(c));
        assert(out@ == old(out)@ + digit_values(s.take(i - from + 1)));
    }
    assert(s.take(to - from) == s);
    true
}

/// The exponent in `v[from..]`, which stands behind the exponent mark.
fn read_power(v: &Vec<char>, from: usize) -> (r: Option<i128>)
    requires
        from <= v@.len(),
    ensures
        match power_of_ten(v@.skip(from as int)) {
            Some(exact) => {
                &&& r is Some
                &&& stands_for_power(r->0 as int, exact)
                &&& -1_000_000_000_000_000_000_000_000_000_000 <= r->0
                    <= 1_000_000_000_000_000_000_000_000_000_000
            },
            None => r is None,
        },
{
    let ghost s = v@.skip(from as int);
    let signed: bool = from < v.len() && (v[from] == '+' || v[from] == '-');
    let negative: bool = from < v.len() && v[from] == '-';
    let start: usize = if signed {
        from + 1
    } else {
        from
    };
    let mut digits: Vec<u8> = Vec::new();
    let ok: bool = push_digits(v, start, v.len(), &mut digits);
    let ghost u = unsigned(s);
    assert(u == v@.subrange(start as int, v@.len() as int));
    if !ok || start == v.len() {
        return None;
    }
    assert(digits@ == digit_values(u));
    let n: i128 = capped(&digits);
    if negative {
        Some(0 - n)
    } else {
        Some(n)
    }
}

/// `read` stands for the power of ten `exact`, with room for the digits behind a point.
spec fn stands_for_power(read: int, exact: int) -> bool {
    ||| read == exact
    ||| read == 1_000_000_000_000_000_000_000_000_000_000 && exact >= read
    ||| read == -1_000_000_000_000_000_000_000_000_000_000 && exact <= read
}

/// The number that `digits` denote, or ten to the power 30 where it is more than that.
fn capped(digits: &Vec<u8>) -> (r: i128)
    requires
        small(digits@),
    ensures
        0 <= r <= 1_000_000_000_000_000_000_000_000_000_000,
        r == num(digits@) || (r == 1_000_000_000_000_000_000_000_000_000_000 && num(digits@) >= r),
{
    let cap: i128 = 1_000_000_000_000_000_000_000_000_000_000;
    let mut r: i128 = 0;
    for i in 0..digits.len()
        invariant
            small(digits@),
            cap == 1_000_000_000_000_000_000_000_000_000_000,
            0 <= r <= cap,
            r == num(digits@.take(i as int)) || (r == cap && num(digits@.take(i as int)) >= cap),
    {
        assert(digits@.take(i + 1).drop_last() == digits@.take(i as int));
        assert(digits@[i as int] < 10);
        r = r * 10 + digits[i] as i128;
        if r > cap {
            r = cap;
        }
    }
    assert(digits@.take(digits@.len() as int) == digits@);
    r
}

/// The digits in `v[from..to]`, which stands in front of the exponent mark, and how many of
/// them stand behind the point.
fn read_significand(v: &Vec<char>, from: usize, to: usize) -> (r: Option<(Vec<u8>, usize)>)
    requires
        from <= to <= v@.len(),
    ensures
        match significand(v@.subrange(from as int, to as int)) {
            Some((value, behind)) => {
                &&& r is Some
                &&& small((r->0).0@)
                &&& num((r->0).0@) == value
                &&& (r->0).1 == behind
            },
            None => r is None,
        },
{
    let ghost front = v@.subrange(from as int, to as int);
    let point: usize = place_of(v, from, to, '.');
    let mut digits: Vec<u8> = Vec::new();
    let ghost p = find(front, '.');
    assert(front.take(p) == v@.subrange(from as int, point as int));
    if !push_digits(v, from, point, &mut digits) {
        return None;
    }
    let behind: usize = if point < to {
        assert(front.skip(p + 1) == v@.subrange(point + 1, to as int));
        if !push_digits(v, point + 1, to, &mut digits) {
            return None;
        }
        to - point - 1
    } else {
        0
    };
    proof {
        let before = front.take(p);
        let after = if p < front.len() {
            front.skip(p + 1)
        } else {
            Seq::empty()
        };
        assert(digits@ == digit_values(before + after));
    }
    if digits.len() == 0 {
        return None;
    }
    Some((digits, behind))
}

/// Reads the number that `s` spells.
fn read_number(s: &str) -> (r: Option<Reading>)
    ensures
        match number(s@) {
            Some(n) => r is Some && is_reading(r->0, n),
            None => r is None,
        },
{
    let v: Vec<char> = chars_of(s);
    let signed: bool = v.len() > 0 && (v[0] == '+' || v[0] == '-');
    let negative: bool = v.len() > 0 && v[0] == '-';
    let from: usize = if signed {
        1
    } else {
        0
    };
    let ghost body = unsigned(s@);
    assert(body == v@.skip(from as int));
    let nan: [char; 3] = ['N', 'A', 'N'];
    let inf: [char; 3] = ['I', 'N', 'F'];
    let infinity: [char; 8] = ['I', 'N', 'F', 'I', 'N', 'I', 'T', 'Y'];
    assert(nan@ == seq!['N', 'A', 'N']);
    assert(inf@ == seq!['I', 'N', 'F']);
    assert(infinity@ == seq!['I', 'N', 'F', 'I', 'N', 'I', 'T', 'Y']);
    if is_word(&v, from, nan.as_slice()) {
        return Some(Reading::NotANumber);
    }
    if is_word(&v, from, inf.as_slice()) || is_word(&v, from, infinity.as_slice()) {
        return Some(Reading::Infinite { negative });
    }
    let n: usize = v.len();
    assert(body == v@.subrange(from as int, n as int));
    let lower: usize = place_of(&v, from, n, 'e');
    let upper: usize = place_of(&v, from, n, 'E');
    let mark: usize = if lower <= upper {
        lower
    } else {
        upper
    };
    let ghost k = mark_place(body);
    assert(mark == from + k);
    assert(body.take(k) == v@.subrange(from as int, mark as int));
    let (digits, behind): (Vec<u8>, usize) = match read_significand(&v, from, mark) {
        Some(found) => found,
        None => {
            return None;
        },
    };
    let power: i128 = if mark < n {
        assert(body.skip(k + 1) == v@.skip(mark + 1));
        match read_power(&v, mark + 1) {
            Some(power) => power,
            None => {
                return None;
            },
        }
    } else {
        0
    };
    Some(Reading::Finite { negative, digits, exponent: power - behind as i128 })
}

// ---------------------------------------------------------------------------
// Rounding what was read
// ---------------------------------------------------------------------------

/// A binary64 number that is not negative: one of at least 2^52, one of at most 2^-60, or
/// `m` times 2^-`k` with 53 binary digits in `m`.
enum Magnitude {
    Huge,
    Tiny,
    Scaled { m: u64, k: u32 },
}

/// `g` is what is known of the number of units `u`.
spec fn describes(g: Magnitude, u: nat) -> bool {
    match g {
        Magnitude::Huge => u >= pow2(52) * one(),
        Magnitude::Tiny => u <= pow2(1014),
        Magnitude::Scaled { m, k } => {
            &&& k <= 300
            &&& pow2(52) <= m <= pow2(53)
            &&& u == m * pow2((1074 - k) as nat)
        },
    }
}

/// Doubles a decimal fraction, and hands out what goes over one.
fn double_digits(f: &mut Vec<u8>) -> (carry: u8)
    requires
        small(old(f)@),
    ensures
        final(f)@.len() == old(f)@.len(),
        small(final(f)@),
        carry <= 1,
        2 * num(old(f)@) == carry * pow10(old(f)@.len()) + num(final(f)@),
{
    let n: usize = f.len();
    let mut i: usize = n;
    let mut carry: u8 = 0;
    let ghost d = f@;
    assert(d.skip(n as int) == Seq::<u8>::empty());
    while i > 0
        invariant
            i <= n,
            d == old(f)@,
            d.len() == n,
            small(d),
            f@.len() == n,
            small(f@),
            carry <= 1,
            forall|j: int| 0 <= j < i ==> f@[j] == d[j],
            2 * num(d.skip(i as int)) == carry * pow10((n - i) as nat) + num(f@.skip(i as int)),
        decreases i,
    {
        let ghost g = f@;
        let ghost c0 = carry;
        i = i - 1;
        assert(d[i as int] < 10);
        let x: u8 = f[i] * 2 + carry;
        carry = x / 10;
        f.set(i, x % 10);
        proof {
            let a = d.skip(i as int);
            let b = f@.skip(i as int);
            assert(a.skip(1) == d.skip(i + 1));
            assert(b.skip(1) == g.skip(i + 1));
            lemma_num_front(a);
            lemma_num_front(b);
            let p = pow10((n - i - 1) as nat);
            let q = pow10((n - i) as nat);
            assert(q == 10 * p);
            let da = d[i as int] as nat;
            let y = (x % 10) as nat;
            let c1 = (x / 10) as nat;
            assert(2 * da + c0 == 10 * c1 + y);
            assert(2 * (da * p) + c0 * p == c1 * (10 * p) + y * p) by (nonlinear_arith)
                requires
                    2 * da + c0 == 10 * c1 + y,
            ;
        }
    }
    assert(d.skip(0) == d);
    assert(f@.skip(0) == f@);
    carry
}

/// Whether all digits are zero.
fn all_zero(f: &Vec<u8>) -> (r: bool)
    requires
        small(f@),
    ensures
        r == (num(f@) == 0),
{
    for i in 0..f.len()
        invariant
            small(f@),
            forall|j: int| 0 <= j < i ==> #[trigger] f@[j] == 0,
    {
        if f[i] != 0 {
            proof {
                lemma_num_concat(f@.take(i as int), f@.skip(i as int));
                assert(f@ == f@.take(i as int) + f@.skip(i as int));
                lemma_num_front(f@.skip(i as int));
                lemma_pow10_pos((f@.len() - i - 1) as nat);
                let x = f@[i as int] as nat;
                let p = pow10((f@.len() - i - 1) as nat);
                assert(x * p > 0) by (nonlinear_arith)
                    requires
                        x > 0,
                        p > 0,
                ;
            }
            return false;
        }
    }
    proof {
        lemma_num_zeros(f@);
    }
    true
}

/// The number that the first `n` digits denote.
fn leading(d: &Vec<u8>, n: usize) -> (r: u64)
    requires
        small(d@),
        n <= d@.len(),
        n <= 16,
    ensures
        r == num(d@.take(n as int)),
        r < 10_000_000_000_000_000,
{
    proof {
        reveal_with_fuel(pow10, 17);
    }
    let mut r: u64 = 0;
    for i in 0..n
        invariant
            small(d@),
            n <= d@.len(),
            n <= 16,
            r == num(d@.take(i as int)),
            r < pow10(i as nat),
            pow10(16) == 10_000_000_000_000_000,
    {
        proof {
            lemma_pow10_grows((i + 1) as nat, 16);
            assert(d@.take(i + 1).drop_last() == d@.take(i as int));
            assert(d@[i as int] < 10);
        }
        r = r * 10 + d[i] as u64;
    }
    proof {
        lemma_pow10_grows(n as nat, 16);
    }
    r
}

/// Rounding a whole part and a fraction, once 53 binary digits stand in front of the point.
proof fn lemma_rounded(w: nat, t: nat, acc: nat, rest: nat, k: nat)
    requires
        t > 0,
        rest < t,
        k <= 300,
        pow2(52) <= acc < pow2(53),
        w * pow2(k) == acc * t + rest,
    ensures
        nearest(w * one(), t) == (if 2 * rest > t || (2 * rest == t && acc % 2 == 1) {
            acc + 1
        } else {
            acc
        }) * pow2((1074 - k) as nat),
{
    let s = (1074 - k) as nat;
    lemma_pow2_adds(k, s);
    let a = acc * t + rest;
    assert((w * one()) * t == t * (a * pow2(s))) by (nonlinear_arith)
        requires
            one() == pow2(k) * pow2(s),
            w * pow2(k) == a,
    ;
    lemma_nearest_at(w * one(), t, acc, rest, t, s);
    assert(a == t * acc + rest) by (nonlinear_arith)
        requires
            a == acc * t + rest,
    ;
    lemma_fundamental_div_mod_converse(a as int, t as int, acc as int, rest as int);
}

/// A value of at least 2^53.
proof fn lemma_huge(w: nat, t: nat)
    requires
        t > 0,
        w >= pow2(53) * t,
    ensures
        describes(Magnitude::Huge, nearest(w * one(), t)),
{
    lemma_nearest_rough(w * one(), t);
    lemma_pow2_pos(1074);
    let big = pow2(53) * one();
    let q = (w * one()) / t;
    assert(w * one() >= big * t) by (nonlinear_arith)
        requires
            w >= pow2(53) * t,
            big == pow2(53) * one(),
            one() > 0,
    ;
    lemma_fundamental_div_mod((w * one()) as int, t as int);
    lemma_mod_bound((w * one()) as int, t as int);
    assert(q >= big) by (nonlinear_arith)
        requires
            w * one() == t * q + (w * one()) % t,
            (w * one()) % t < t,
            w * one() >= big * t,
            t > 0,
    ;
    lemma_pow2_unfold(53);
    assert(pow2(53) * one() == 2 * (pow2(52) * one())) by (nonlinear_arith)
        requires
            pow2(53) == 2 * pow2(52),
    ;
}

/// A value below 2^-65.
proof fn lemma_tiny(w: nat, t: nat)
    requires
        t > 0,
        w * pow2(65) < t,
    ensures
        describes(Magnitude::Tiny, nearest(w * one(), t)),
{
    lemma_nearest_rough(w * one(), t);
    let q = (w * one()) / t;
    lemma_pow2_adds(65, 1009);
    lemma_pow2_pos(1009);
    lemma_fundamental_div_mod((w * one()) as int, t as int);
    lemma_mod_bound((w * one()) as int, t as int);
    let x = w * pow2(65);
    assert(w * one() == x * pow2(1009)) by (nonlinear_arith)
        requires
            one() == pow2(65) * pow2(1009),
            x == w * pow2(65),
    ;
    assert(x * pow2(1009) < t * pow2(1009)) by (nonlinear_arith)
        requires
            x < t,
            pow2(1009) > 0,
    ;
    assert(q < pow2(1009)) by (nonlinear_arith)
        requires
            w * one() == t * q + (w * one()) % t,
            0 <= (w * one()) % t,
            w * one() < t * pow2(1009),
            t > 0,
    ;
    lemma_pow2_unfold(1010);
    lemma_pow2_strictly_increases(1010, 1014);
}

/// The binary64 number nearest to a whole part and a decimal fraction.
fn round_fixed(first: u64, frac: Vec<u8>) -> (r: Magnitude)
    requires
        small(frac@),
    ensures
        describes(
            r,
            nearest(
                (first * pow10(frac@.len()) + num(frac@)) as nat * one(),
                pow10(frac@.len()),
            ),
        ),
{
    let ghost t = pow10(frac@.len());
    let ghost w = (first * t + num(frac@)) as nat;
    proof {
        lemma_pow10_pos(frac@.len());
        lemma2_to64();
            lemma2_to64_rest();
        lemma_num_below(frac@);
        assert(first * t >= 0) by (nonlinear_arith);
    }
    if first >= 0x20_0000_0000_0000 {
        proof {
            assert(w >= pow2(53) * t) by (nonlinear_arith)
                requires
                    w >= first * t,
                    first >= pow2(53),
                    t >= 0,
            ;
            lemma_huge(w, t);
        }
        return Magnitude::Huge;
    }
    let mut acc: u64 = first;
    let mut f: Vec<u8> = frac;
    let mut k: u32 = 0;
    assert(w * pow2(0) == w) by (nonlinear_arith)
        requires
            pow2(0) == 1,
    ;
    while acc < 0x10_0000_0000_0000 && k < 300
        invariant
            small(f@),
            t == pow10(f@.len()),
            t > 0,
            num(f@) < t,
            acc < 0x20_0000_0000_0000,
            k <= 300,
            w * pow2(k as nat) == acc * t + num(f@),
        decreases 300 - k,
    {
        let ghost f0 = f@;
        let ghost acc0 = acc;
        let ghost k0 = k;
        let carry: u8 = double_digits(&mut f);
        acc = acc * 2 + carry as u64;
        k = k + 1;
        proof {
            lemma_num_below(f@);
            lemma_pow2_unfold((k0 + 1) as nat);
            let p = pow2(k0 as nat);
            assert(w * (2 * p) == 2 * (w * p)) by (nonlinear_arith);
            assert((acc0 * 2 + carry) * t == 2 * (acc0 * t) + carry * t) by (nonlinear_arith);
        }
    }
    if acc < 0x10_0000_0000_0000 {
        proof {
            lemma2_to64();
            lemma2_to64_rest();
            // the value is below 2^53 / 2^300
            assert(acc * t + num(f@) < pow2(53) * t) by (nonlinear_arith)
                requires
                    acc < 0x10_0000_0000_0000,
                    num(f@) < t,
                    pow2(53) == 0x20_0000_0000_0000,
            ;
            lemma_pow2_adds(235, 65);
            let a = pow2(235);
            let b = pow2(65);
            assert(w * pow2(300) == (w * b) * a) by (nonlinear_arith)
                requires
                    pow2(300) == a * b,
            ;
            assert(a >= pow2(53)) by {
                lemma_pow2_strictly_increases(53, 235);
            }
            assert(w * b < t) by (nonlinear_arith)
                requires
                    (w * b) * a < pow2(53) * t,
                    a >= pow2(53),
                    t > 0,
            ;
            lemma_tiny(w, t);
        }
        return Magnitude::Tiny;
    }
    let ghost rest = num(f@);
    proof {
        lemma2_to64();
            lemma2_to64_rest();
        lemma_rounded(w, t, acc as nat, rest, k as nat);
    }
    let over: u8 = double_digits(&mut f);
    let zero: bool = all_zero(&f);
    proof {
        lemma_num_below(f@);
    }
    let up: bool = over == 1 && (!zero || acc % 2 == 1);
    let m: u64 = if up {
        acc + 1
    } else {
        acc
    };
    Magnitude::Scaled { m, k }
}

/// A number of at least 10^16.
proof fn lemma_units_huge(v: nat, n: nat, e: int)
    requires
        n >= 1,
        v >= pow10((n - 1) as nat),
        n - 1 + e >= 16,
    ensures
        describes(Magnitude::Huge, units(v, e)),
{
    assert(pow10(16) >= pow2(53)) by {
        reveal_with_fuel(pow10, 17);
        lemma2_to64_rest();
    }
    let x = pow10((n - 1) as nat);
    let y = pow10((n - 1 + e) as nat);
    lemma_pow10_grows(16, (n - 1 + e) as nat);
    if e >= 0 {
        let p = pow10(e as nat);
        lemma_pow10_adds((n - 1) as nat, e as nat);
        assert(v * p >= x * p) by (nonlinear_arith)
            requires
                v >= x,
        ;
        lemma_huge(v * p, 1);
    } else {
        let t = pow10((-e) as nat);
        lemma_pow10_pos((-e) as nat);
        lemma_pow10_adds((-e) as nat, (n - 1 + e) as nat);
        assert(x == t * y);
        assert(v >= pow2(53) * t) by (nonlinear_arith)
            requires
                v >= t * y,
                y >= pow2(53),
        ;
        lemma_huge(v, t);
    }
}

/// A number below 10^-20.
proof fn lemma_units_tiny(v: nat, n: nat, e: int)
    requires
        v < pow10(n),
        n + e <= -20,
    ensures
        describes(Magnitude::Tiny, units(v, e)),
{
    assert(pow10(20) >= pow2(65)) by {
        reveal_with_fuel(pow10, 21);
        lemma2_to64();
        lemma_pow2_unfold(65);
    }
    let t = pow10((-e) as nat);
    let p = pow10(n);
    lemma_pow10_pos((-e) as nat);
    lemma_pow10_adds(n, 20);
    lemma_pow10_grows(n + 20, (-e) as nat);
    lemma_pow2_pos(65);
    assert(v * pow2(65) < t) by (nonlinear_arith)
        requires
            v < p,
            p * pow10(20) <= t,
            pow10(20) >= pow2(65),
            pow2(65) > 0,
    ;
    lemma_tiny(v, t);
}

/// Zero.
proof fn lemma_units_zero(e: int)
    ensures
        describes(Magnitude::Tiny, units(0, e)),
{
    lemma_pow2_pos(65);
    if e >= 0 {
        lemma_tiny(0, 1);
        assert(0 * pow10(e as nat) == 0);
    } else {
        lemma_pow10_pos((-e) as nat);
        lemma_tiny(0, pow10((-e) as nat));
    }
}

/// The binary64 number nearest to `digits` times ten to the power `exponent`.
fn magnitude(digits: &Vec<u8>, exponent: i128) -> (r: Magnitude)
    requires
        small(digits@),
    ensures
        forall|e: int|
            stands_for(exponent as int, e) ==> describes(r, #[trigger] units(num(digits@), e)),
{
    let ghost v = num(digits@);
    let mut z: usize = 0;
    assert(digits@.skip(0) == digits@);
    while z < digits.len() && digits[z] == 0
        invariant
            z <= digits@.len(),
            num(digits@.skip(z as int)) == num(digits@),
        decreases digits.len() - z,
    {
        proof {
            lemma_num_front(digits@.skip(z as int));
            assert(digits@.skip(z as int).skip(1) == digits@.skip(z + 1));
            let p = pow10((digits@.len() - z - 1) as nat);
            assert(0 * p == 0);
        }
        z = z + 1;
    }
    let n: usize = digits.len() - z;
    let ghost d = digits@.skip(z as int);
    if n == 0 {
        proof {
            assert forall|e: int| stands_for(exponent as int, e) implies describes(
                Magnitude::Tiny,
                #[trigger] units(v, e),
            ) by {
                lemma_units_zero(e);
            }
        }
        return Magnitude::Tiny;
    }
    proof {
        assert(small(d));
        lemma_num_below(d);
        lemma_num_front(d);
        let p = pow10((n - 1) as nat);
        let x = d[0] as nat;
        assert(x * p >= p) by (nonlinear_arith)
            requires
                x >= 1,
        ;
    }
    if exponent > 100 || (exponent > -100_000_000_000_000_000_000 && n as i128 - 1 + exponent
        >= 16) {
        proof {
            assert forall|e: int| stands_for(exponent as int, e) implies describes(
                Magnitude::Huge,
                #[trigger] units(v, e),
            ) by {
                lemma_units_huge(v, n as nat, e);
            }
        }
        return Magnitude::Huge;
    }
    if exponent < -100_000_000_000_000_000_000 || n as i128 + exponent <= -20 {
        proof {
            assert forall|e: int| stands_for(exponent as int, e) implies describes(
                Magnitude::Tiny,
                #[trigger] units(v, e),
            ) by {
                lemma_units_tiny(v, n as nat, e);
            }
        }
        return Magnitude::Tiny;
    }
    fixed_magnitude(digits, z, exponent)
}

/// `digits[z..]` with `pad` zeros in front and `extra` zeros behind.
fn padded(digits: &Vec<u8>, z: usize, pad: u64, extra: u64) -> (row: Vec<u8>)
    requires
        small(digits@),
        z < digits@.len(),
    ensures
        small(row@),
        row@.len() == pad + (digits@.len() - z) + extra,
        num(row@) == num(digits@.skip(z as int)) * pow10(extra as nat),
{
    let mut row: Vec<u8> = Vec::new();
    for i in 0..pad
        invariant
            row@.len() == i,
            forall|j: int| 0 <= j < row@.len() ==> #[trigger] row@[j] == 0,
    {
        row.push(0);
    }
    let ghost zeros = row@;
    for i in z..digits.len()
        invariant
            z < digits@.len(),
            row@ == zeros + digits@.subrange(z as int, i as int),
    {
        row.push(digits[i]);
        assert(row@ == zeros + digits@.subrange(z as int, i + 1));
    }
    let ghost d = digits@.skip(z as int);
    assert(digits@.subrange(z as int, digits@.len() as int) == d);
    let ghost body = row@;
    for i in 0..extra
        invariant
            row@.len() == body.len() + i,
            row@.take(body.len() as int) == body,
            forall|j: int| body.len() <= j < row@.len() ==> #[trigger] row@[j] == 0,
    {
        row.push(0);
        assert(row@.take(body.len() as int) == body);
    }
    proof {
        lemma_num_zeros(zeros);
        lemma_num_concat(zeros, d);
        assert(0 * pow10(d.len()) == 0);
        let tail = row@.skip(body.len() as int);
        assert(row@ == body + tail);
        assert forall|j: int| 0 <= j < tail.len() implies #[trigger] tail[j] == 0 by {
            assert(tail[j] == row@[body.len() + j]);
        }
        lemma_num_zeros(tail);
        lemma_num_concat(body, tail);
        assert forall|j: int| 0 <= j < row@.len() implies #[trigger] row@[j] < 10 by {
            if j >= body.len() {
                assert(row@[j] == 0);
            } else {
                assert(row@[j] == row@.take(body.len() as int)[j]);
                if j < pad {
                    assert(body[j] == zeros[j]);
                } else {
                    assert(body[j] == digits@[z + j - pad]);
                }
            }
        }
    }
    row
}

/// The same for an exponent that leaves at most 16 digits in front of the point, and at most
/// 19 zeros behind it before the first digit.
fn fixed_magnitude(digits: &Vec<u8>, z: usize, exponent: i128) -> (r: Magnitude)
    requires
        small(digits@),
        z < digits@.len(),
        num(digits@.skip(z as int)) == num(digits@),
        exponent <= 100,
        -20 < digits@.len() - z + exponent <= 16,
    ensures
        describes(r, units(num(digits@), exponent as int)),
{
    let ghost v = num(digits@);
    let n: i128 = (digits.len() - z) as i128;
    let behind: i128 = if exponent < 0 {
        0 - exponent
    } else {
        0
    };
    let pad: u64 = if behind > n {
        (behind - n) as u64
    } else {
        0
    };
    let extra: u64 = if exponent > 0 {
        exponent as u64
    } else {
        0
    };
    let row: Vec<u8> = padded(digits, z, pad, extra);
    let front: usize = (row.len() as i128 - behind) as usize;
    let first: u64 = leading(&row, front);
    let mut frac: Vec<u8> = Vec::new();
    for i in front..row.len()
        invariant
            front <= row@.len(),
            frac@ == row@.subrange(front as int, i as int),
    {
        frac.push(row[i]);
        assert(frac@ == row@.subrange(front as int, i + 1));
    }
    proof {
        let a = row@.take(front as int);
        assert(row@ == a + frac@);
        lemma_num_concat(a, frac@);
        assert(small(frac@)) by {
            assert forall|j: int| 0 <= j < frac@.len() implies #[trigger] frac@[j] < 10 by {
                assert(frac@[j] == row@[front + j]);
            }
        }
        assert(frac@.len() == behind);
        assert(v * pow10(0) == v) by (nonlinear_arith)
            requires
                pow10(0) == 1,
        ;
    }
    round_fixed(first, frac)
}

// ---------------------------------------------------------------------------
// Whole parts
// ---------------------------------------------------------------------------

/// The whole part of a number with the precision of binary64, as a `u32`: zero for what is
/// negative or not a number, and the largest `u32` for what does not fit.
pub open spec fn whole_part(n: Number) -> u32 {
    match n {
        Number::Finite { negative: false, digits, exponent } => saturated(
            whole(units(digits, exponent)),
        ),
        Number::Infinite { negative: false } => u32::MAX,
        _ => 0,
    }
}

/// The whole part of a number of kilohertz, of a number given in kilohertz, in megahertz or
/// in tens of hertz: from 100000 up it is taken for tens of hertz, from 1000 up for
/// kilohertz, and below for megahertz. The scaling has the precision of binary64 too.
pub open spec fn scaled_part(n: Number) -> u32 {
    match n {
        Number::Finite { negative: false, digits, exponent } => {
            let u = units(digits, exponent);
            if u >= 100_000 * one() {
                saturated(whole(nearest(u, 100)))
            } else if u >= 1_000 * one() {
                saturated(whole(u))
            } else {
                saturated(whole(nearest(1000 * u, 1)))
            }
        },
        Number::Infinite { negative: false } => u32::MAX,
        _ => 0,
    }
}

/// `n` as a `u32`, the largest one where it does not fit.
fn saturate(n: u64) -> (r: u32)
    ensures
        r == saturated(n as nat),
{
    if n > u32::MAX as u64 {
        u32::MAX
    } else {
        n as u32
    }
}

/// `m / 2^k`.
fn shifted(m: u64, k: u32) -> (r: u64)
    ensures
        pow2(k as nat) > 0,
        r == m as nat / pow2(k as nat),
{
    proof {
        lemma_pow2_pos(k as nat);
    }
    if k >= 64 {
        proof {
            lemma2_to64();
            if k > 64 {
                lemma_pow2_strictly_increases(64, k as nat);
            }
            lemma_basic_div(m as int, pow2(k as nat) as int);
        }
        0
    } else {
        proof {
            vstd::bits::lemma_u64_shr_is_div(m, k as u64);
        }
        m >> (k as u64)
    }
}

/// The whole part of the number that `g` describes.
fn whole_of(g: &Magnitude) -> (r: u32)
    ensures
        forall|u: nat| describes(*g, u) ==> r == saturated(#[trigger] whole(u)),
{
    proof {
        lemma2_to64();
        lemma2_to64_rest();
        lemma_pow2_pos(1074);
    }
    match g {
        Magnitude::Huge => {
            proof {
                assert forall|u: nat| describes(*g, u) implies u32::MAX == saturated(
                    #[trigger] whole(u),
                ) by {
                    lemma_div_at_least(u, one(), pow2(52));
                }
            }
            u32::MAX
        },
        Magnitude::Tiny => {
            proof {
                assert forall|u: nat| describes(*g, u) implies 0 == saturated(
                    #[trigger] whole(u),
                ) by {
                    lemma_pow2_strictly_increases(1014, 1074);
                    lemma_basic_div(u as int, one() as int);
                }
            }
            0
        },
        Magnitude::Scaled { m, k } => {
            proof {
                if *k <= 300 {
                    lemma_whole_of(*m as nat, *k as nat);
                }
            }
            saturate(shifted(*m, *k))
        },
    }
}

/// A quotient is at least what the divisor fits into the dividend.
proof fn lemma_div_at_least(a: nat, b: nat, n: nat)
    requires
        b > 0,
        a >= n * b,
    ensures
        a / b >= n,
{
    lemma_fundamental_div_mod(a as int, b as int);
    lemma_mod_bound(a as int, b as int);
    let q = a / b;
    assert(q >= n) by (nonlinear_arith)
        requires
            a == b * q + a % b,
            a % b < b,
            a >= n * b,
            b > 0,
    ;
}

/// The whole number of kilohertz in the number that `g` describes, by its size.
fn scaled_of(g: &Magnitude) -> (r: u32)
    ensures
        forall|negative: bool, digits: nat, exponent: int|
            !negative && describes(*g, units(digits, exponent)) ==> r == #[trigger] scaled_part(
                Number::Finite { negative, digits, exponent },
            ),
{
    proof {
        lemma2_to64();
        lemma2_to64_rest();
        lemma_pow2_pos(1074);
    }
    match g {
        Magnitude::Huge => {
            proof {
                assert forall|negative: bool, digits: nat, exponent: int|
                    !negative && describes(*g, units(digits, exponent)) implies u32::MAX
                    == #[trigger] scaled_part(
                    Number::Finite { negative, digits, exponent },
                ) by {
                    let u = units(digits, exponent);
                    lemma_scaled_huge(u);
                }
            }
            u32::MAX
        },
        Magnitude::Tiny => {
            proof {
                assert forall|negative: bool, digits: nat, exponent: int|
                    !negative && describes(*g, units(digits, exponent)) implies 0
                    == #[trigger] scaled_part(
                    Number::Finite { negative, digits, exponent },
                ) by {
                    let u = units(digits, exponent);
                    lemma_scaled_tiny(u);
                }
            }
            0
        },
        Magnitude::Scaled { m, k } => {
            let first: u64 = shifted(*m, *k);
            let r: u32 = if first >= 100_000 {
                saturate(first / 100)
            } else if first >= 1_000 {
                saturate(first)
            } else {
                scaled_up(*m, *k)
            };
            proof {
                let mm = *m as nat;
                let kk = *k as nat;
                if kk <= 300 && pow2(52) <= mm <= pow2(53) {
                    let u = mm * pow2((1074 - kk) as nat);
                    lemma_whole_of(mm, kk);
                    lemma_hundredth(mm, kk);
                    assert(u >= 100_000 * one() <==> mm >= 100_000 * pow2(kk));
                    assert(u >= 1_000 * one() <==> mm >= 1_000 * pow2(kk));
                    lemma_div_reaches(mm, pow2(kk), 100_000);
                    lemma_div_reaches(mm, pow2(kk), 1_000);
                }
            }
            r
        },
    }
}

/// When a quotient reaches `n`.
proof fn lemma_div_reaches(a: nat, b: nat, n: nat)
    requires
        b > 0,
    ensures
        a / b >= n <==> a >= n * b,
{
    if a >= n * b {
        lemma_div_at_least(a, b, n);
    } else {
        lemma_fundamental_div_mod(a as int, b as int);
        lemma_mod_bound(a as int, b as int);
        let q = a / b;
        assert(q < n) by (nonlinear_arith)
            requires
                a == b * q + a % b,
                a % b >= 0,
                a < n * b,
        ;
    }
}

/// What is huge in any of the three scales.
proof fn lemma_scaled_huge(u: nat)
    requires
        describes(Magnitude::Huge, u),
    ensures
        u >= 100_000 * one(),
        saturated(whole(nearest(u, 100))) == u32::MAX,
{
    lemma2_to64();
    lemma2_to64_rest();
    lemma_pow2_pos(1074);
    let o = one();
    assert(u >= 100_000 * o) by (nonlinear_arith)
        requires
            u >= pow2(52) * o,
            pow2(52) >= 100_000,
    ;
    lemma_nearest_rough(u, 100);
    let v = nearest(u, 100);
    assert(u / 100 <= 2 * v);
    assert(v >= pow2(40) * o) by (nonlinear_arith)
        requires
            u >= pow2(52) * o,
            u / 100 <= 2 * v,
            pow2(52) == 0x10_0000_0000_0000,
            pow2(40) == 0x100_0000_0000,
            o > 0,
    ;
    lemma_div_at_least(v, o, pow2(40));
}

/// What is tiny in any of the three scales.
proof fn lemma_scaled_tiny(u: nat)
    requires
        describes(Magnitude::Tiny, u),
    ensures
        u < 1_000 * one(),
        u < 100_000 * one(),
        saturated(whole(nearest(1000 * u, 1))) == 0,
{
    lemma_pow2_strictly_increases(1014, 1074);
    lemma_nearest_rough(1000 * u, 1);
    lemma2_to64();
    lemma_pow2_adds(11, 1014);
    lemma_pow2_pos(1014);
    lemma_pow2_strictly_increases(1026, 1074);
    lemma_pow2_unfold(1026);
    let v = nearest(1000 * u, 1);
    assert(v <= 2 * (1000 * u) + 1);
    assert(v <= 2048 * pow2(1014) + 1);
    lemma_basic_div(v as int, one() as int);
}

/// The whole part of a thousand times `m * 2^-k`, rounded.
fn scaled_up(m: u64, k: u32) -> (r: u32)
    ensures
        k <= 300 && pow2(52) <= m <= pow2(53) ==> r == saturated(
            whole(nearest(1000 * (m as nat * pow2((1074 - k) as nat)), 1)),
        ),
{
    proof {
        lemma2_to64();
        lemma2_to64_rest();
    }
    if m < 0x10_0000_0000_0000 || m > 0x20_0000_0000_0000 || k > 300 {
        return 0;
    }
    let x: u64 = m * 1000;
    let step: u64 = if x < 0x4000_0000_0000_0000 {
        512
    } else {
        1024
    };
    proof {
        let shift: nat = if x < 0x4000_0000_0000_0000 {
            9
        } else {
            10
        };
        lemma_thousandfold(m as nat, k as nat, shift);
        lemma_half_even(x as nat, step as nat);
    }
    let q: u64 = x / step;
    let r: u64 = x % step;
    let h: u64 = if 2 * r > step || (2 * r == step && q % 2 == 1) {
        q + 1
    } else {
        q
    };
    assert(h == half_even(x as nat, step as nat));
    assert(h * step < 0x8000_0000_0000_0400) by (nonlinear_arith)
        requires
            h <= q + 1,
            q * step <= x,
            x < 0x8000_0000_0000_0000,
            step <= 1024,
    ;
    saturate(shifted(h * step, k))
}

/// The whole part of the number that `s` spells, and zero where it spells none.
pub fn parse_whole(s: &str) -> (r: u32)
    ensures
        r == (match number(s@) {
            Some(n) => whole_part(n),
            None => 0,
        }),
{
    match read_number(s) {
        Some(Reading::Finite { negative, digits, exponent }) => if negative {
            0
        } else {
            whole_of(&magnitude(&digits, exponent))
        },
        Some(Reading::Infinite { negative }) => if negative {
            0
        } else {
            u32::MAX
        },
        _ => 0,
    }
}

/// The whole number of kilohertz in the number that `s` spells, by its size.
pub fn parse_scaled(s: &str) -> (r: Option<u32>)
    ensures
        r == (match number(s@) {
            Some(n) => Some(scaled_part(n)),
            None => None,
        }),
{
    match read_number(s) {
        Some(Reading::Finite { negative, digits, exponent }) => if negative {
            Some(0)
        } else {
            Some(scaled_of(&magnitude(&digits, exponent)))
        },
        Some(Reading::Infinite { negative }) => if negative {
            Some(0)
        } else {
            Some(u32::MAX)
        },
        Some(Reading::NotANumber) => Some(0),
        None => None,
    }
}

// ---------------------------------------------------------------------------
// Numbers written with a point
// ---------------------------------------------------------------------------

/// Digits, a point and digits spell the digits with the point taken into the exponent.
pub proof fn lemma_number_with_point(before: Seq<char>, after: Seq<char>)
    requires
        before.len() > 0,
        all_digits(before),
        all_digits(after),
    ensures
        number(before.push('.') + after) == Some(
            Number::Finite {
                negative: false,
                digits: num(digit_values(before + after)),
                exponent: -after.len(),
            },
        ),
{
    let s = before.push('.') + after;
    let n = before.len() as int;
    assert(s[0] == before[0]);
    assert(is_digit(before[0]));
    assert(unsigned(s) == s);
    let r = s.map_values(|c: char| raised(c));
    assert(r[0] == s[0]);
    assert(!spells(s, seq!['N', 'A', 'N']));
    assert(!spells(s, seq!['I', 'N', 'F']));
    assert(!spells(s, seq!['I', 'N', 'F', 'I', 'N', 'I', 'T', 'Y']));
    assert forall|j: int| 0 <= j < s.len() implies s[j] != 'e' && s[j] != 'E' && (j != n ==> s[j]
        != '.') by {
        if j < n {
            assert(s[j] == before[j]);
            assert(is_digit(before[j]));
        } else if j > n {
            assert(s[j] == after[j - n - 1]);
            assert(is_digit(after[j - n - 1]));
        } else {
            assert(s[j] == '.');
        }
    }
    crate::text::lemma_find_at(s, 'e', s.len() as int);
    crate::text::lemma_find_at(s, 'E', s.len() as int);
    assert(s.take(s.len() as int) == s);
    crate::text::lemma_find_at(s, '.', n);
    assert(s.take(n) == before);
    assert(s.skip(n + 1) == after);
}

/// A number in decimal has a sign where it is negative, digits that denote its size, and no zero
/// in front of others.
pub proof fn decimals_tell_the_number(n: int)
    ensures
        ({
            let s = crate::text::signed_decimal(n);
            let d = if n < 0 {
                s.skip(1)
            } else {
                s
            };
            &&& s.len() > 0
            &&& n < 0 <==> s[0] == '-'
            &&& d.len() > 0 && all_digits(d)
            &&& num(digit_values(d)) == (if n < 0 {
                -n
            } else {
                n
            })
            &&& d[0] == '0' ==> n == 0 && d.len() == 1
        }),
{
    let size = if n < 0 {
        (-n) as nat
    } else {
        n as nat
    };
    lemma_decimal_digits(size);
    lemma_no_zero_in_front(size);
    let d = crate::text::decimal(size);
    assert(is_digit(d[0]));
    if n < 0 {
        assert(crate::text::signed_decimal(n).skip(1) == d);
    }
}

proof fn lemma_no_zero_in_front(n: nat)
    ensures
        crate::text::decimal(n).len() > 0,
        crate::text::decimal(n)[0] == '0' ==> n == 0,
        n == 0 ==> crate::text::decimal(n).len() == 1,
    decreases n,
{
    if n >= 10 {
        lemma_no_zero_in_front(n / 10);
        assert(crate::text::decimal(n)[0] == crate::text::decimal(n / 10)[0]);
    } else {
        assert(crate::text::decimal(n)[0] == (48 + n) as char);
    }
}

/// Digits spell the number that they denote.
pub proof fn lemma_number_of_digits(d: Seq<char>)
    requires
        d.len() > 0,
        all_digits(d),
    ensures
        number(d) == Some(
            Number::Finite { negative: false, digits: num(digit_values(d)), exponent: 0 },
        ),
{
    assert(is_digit(d[0]));
    assert(unsigned(d) == d);
    let r = d.map_values(|c: char| raised(c));
    assert(r[0] == d[0]);
    assert(!spells(d, seq!['N', 'A', 'N']));
    assert(!spells(d, seq!['I', 'N', 'F']));
    assert(!spells(d, seq!['I', 'N', 'F', 'I', 'N', 'I', 'T', 'Y']));
    assert forall|j: int| 0 <= j < d.len() implies d[j] != 'e' && d[j] != 'E' && d[j] != '.' by {
        assert(is_digit(d[j]));
    }
    let n = d.len() as int;
    crate::text::lemma_find_at(d, 'e', n);
    crate::text::lemma_find_at(d, 'E', n);
    crate::text::lemma_find_at(d, '.', n);
    assert(d.take(n) == d);
    assert(d + Seq::<char>::empty() == d);
}

/// Decimal digits are digits, and denote the number that they were made of.
pub proof fn lemma_decimal_digits(n: nat)
    ensures
        crate::text::decimal(n).len() > 0,
        all_digits(crate::text::decimal(n)),
        num(digit_values(crate::text::decimal(n))) == n,
    decreases n,
{
    let s = crate::text::decimal(n);
    let v = digit_values(s);
    if n < 10 {
        assert(s[0] == (48 + n) as char);
        assert(v.len() == 1);
        assert(v[0] == n);
        assert(v.drop_last() == Seq::<u8>::empty());
        assert(num(v.drop_last()) == 0);
    } else {
        let t = crate::text::decimal(n / 10);
        lemma_decimal_digits(n / 10);
        assert(s.last() == (48 + n % 10) as char);
        assert(v.drop_last() == digit_values(t));
        assert(v.last() == n % 10);
        assert forall|i: int| 0 <= i < s.len() implies is_digit(#[trigger] s[i]) by {
            if i < t.len() {
                assert(s[i] == t[i]);
                assert(is_digit(t[i]));
            }
        }
    }
}

/// A whole number with two zeros behind the point.
pub proof fn lemma_number_with_zeros(n: nat)
    ensures
        ({
            let s = crate::text::decimal(n) + ".00"@;
            &&& s.len() == crate::text::decimal(n).len() + 3
            &&& crate::text::trimmed(s) == s
            &&& number(s) == Some(
                Number::Finite { negative: false, digits: 100 * n, exponent: -2 },
            )
        }),
{
    let d = crate::text::decimal(n);
    let zeros = seq!['0', '0'];
    reveal_strlit(".00");
    let s = d + ".00"@;
    assert(s == d.push('.') + zeros);
    lemma_decimal_digits(n);
    assert(is_digit(d[0]));
    assert(s[0] == d[0]);
    crate::text::lemma_trimmed_unchanged(s);
    assert(all_digits(zeros));
    lemma_number_with_point(d, zeros);
    let a = digit_values(d);
    let b = digit_values(zeros);
    assert(digit_values(d + zeros) == a + b);
    lemma_num_concat(a, b);
    assert(b == seq![0u8, 0u8]);
    assert(num(b) == 0) by {
        reveal_with_fuel(num, 3);
    }
    assert(pow10(2) == 100) by {
        reveal_with_fuel(pow10, 3);
    }
    assert(num(a) == n);
    assert(n * pow10(2) == 100 * n) by (nonlinear_arith)
        requires
            pow10(2) == 100,
    ;
    assert(num(a + b) == 100 * n);
}

/// A whole number of kilohertz written with two places behind the point is read back.
pub proof fn lemma_whole_of_hundredths(n: nat)
    requires
        0 < n <= u32::MAX,
    ensures
        whole_part(Number::Finite { negative: false, digits: 100 * n, exponent: -2 }) == n,
{
    reveal_with_fuel(pow10, 3);
    assert(pow10(2) == 100);
    lemma_pow2_pos(1074);
    let o = one();
    crate::rounding::lemma_nearest_scaled(n * o, 1, 100);
    assert((100 * n) * o == (n * o) * 100) by (nonlinear_arith);
    lemma2_to64_rest();
    crate::rounding::lemma_nearest_whole(n);
    lemma_fundamental_div_mod_converse((n * o) as int, o as int, n as int, 0);
}

/// A whole number of kilohertz from 1000 up to 100000 is read as itself.
pub proof fn lemma_scaled_hundredths(n: nat)
    requires
        1000 <= n < 100_000,
    ensures
        scaled_part(Number::Finite { negative: false, digits: 100 * n, exponent: -2 }) == n,
{
    reveal_with_fuel(pow10, 3);
    assert(pow10(2) == 100);
    lemma_pow2_pos(1074);
    let o = one();
    crate::rounding::lemma_nearest_scaled(n * o, 1, 100);
    assert((100 * n) * o == (n * o) * 100) by (nonlinear_arith);
    lemma2_to64_rest();
    crate::rounding::lemma_nearest_whole(n);
    assert(1000 * o <= n * o < 100_000 * o) by (nonlinear_arith)
        requires
            1000 <= n < 100_000,
            o > 0,
    ;
    lemma_fundamental_div_mod_converse((n * o) as int, o as int, n as int, 0);
}

/// A hundred times a whole number of kilohertz from 1000 up is read as that number.
pub proof fn lemma_scaled_hundredfold(n: nat)
    requires
        1000 <= n <= u32::MAX,
    ensures
        scaled_part(Number::Finite { negative: false, digits: 100 * n, exponent: 0 }) == n,
{
    lemma_pow2_pos(1074);
    let o = one();
    let w = 100 * n;
    lemma2_to64_rest();
    assert(w * pow10(0) * o == w * o) by (nonlinear_arith)
        requires
            pow10(0) == 1,
    ;
    crate::rounding::lemma_nearest_whole(w);
    crate::rounding::lemma_nearest_whole(n);
    crate::rounding::lemma_nearest_scaled(n * o, 1, 100);
    assert(w * o == (n * o) * 100) by (nonlinear_arith)
        requires
            w == 100 * n,
    ;
    assert(w * o >= 100_000 * o) by (nonlinear_arith)
        requires
            w >= 100_000,
            o > 0,
    ;
    lemma_fundamental_div_mod_converse((n * o) as int, o as int, n as int, 0);
}

/// Tenths of a megahertz are read as hundreds of kilohertz, wherever the thousandfold has
/// ten more binary digits than the whole part.
pub proof fn lemma_scaled_tenths(w: nat)
    requires
        10 <= w < 10_000,
        crate::rounding::bits(100 * w) == crate::rounding::bits(w / 10) + 10,
    ensures
        scaled_part(Number::Finite { negative: false, digits: w, exponent: -1 }) == 100 * w,
{
    reveal_with_fuel(pow10, 2);
    assert(pow10(1) == 10);
    lemma_pow2_pos(1074);
    crate::rounding::lemma_tenth_times_thousand(w);
}

// ---------------------------------------------------------------------------
// What numbers are read as
// ---------------------------------------------------------------------------

/// A number is the quotient of this one and `bottom`.
pub open spec fn top(digits: nat, exponent: int) -> nat {
    if exponent >= 0 {
        digits * pow10(exponent as nat)
    } else {
        digits
    }
}

/// A number is the quotient of `top` and this one.
pub open spec fn bottom(exponent: int) -> nat {
    if exponent >= 0 {
        1
    } else {
        pow10((-exponent) as nat)
    }
}

proof fn lemma_quotient(digits: nat, exponent: int)
    ensures
        units(digits, exponent) == nearest(top(digits, exponent) * one(), bottom(exponent)),
        bottom(exponent) > 0,
{
    if exponent < 0 {
        lemma_pow10_pos((-exponent) as nat);
    }
}

/// A number that is at most nine tenths above a whole number is cut to it.
pub proof fn numbers_are_cut(digits: nat, exponent: int, k: nat)
    requires
        k <= u32::MAX,
        k * bottom(exponent) <= top(digits, exponent),
        10 * top(digits, exponent) <= (10 * k + 9) * bottom(exponent),
    ensures
        whole_part(Number::Finite { negative: false, digits, exponent }) == k,
{
    lemma_quotient(digits, exponent);
    lemma_in_units(top(digits, exponent), bottom(exponent), k, 10 * k + 9, 10);
    crate::rounding::lemma_nearest_keeps_whole(
        top(digits, exponent) * one(),
        bottom(exponent),
        k,
    );
}

/// A number from 1000 up to 100000 is taken for kilohertz: what is at most nine tenths above a
/// whole number is cut to it.
pub proof fn kilohertz_are_cut(digits: nat, exponent: int, k: nat)
    requires
        1000 <= k < 100_000,
        k * bottom(exponent) <= top(digits, exponent),
        10 * top(digits, exponent) <= (10 * k + 9) * bottom(exponent),
    ensures
        scaled_part(Number::Finite { negative: false, digits, exponent }) == k,
{
    lemma_quotient(digits, exponent);
    lemma_in_units(top(digits, exponent), bottom(exponent), k, 10 * k + 9, 10);
    crate::rounding::lemma_nearest_keeps_whole(
        top(digits, exponent) * one(),
        bottom(exponent),
        k,
    );
    let u = units(digits, exponent);
    let o = one();
    lemma_pow2_pos(1074);
    assert(1000 * o <= u < 100_000 * o) by (nonlinear_arith)
        requires
            k * o <= u,
            16 * u <= (16 * k + 15) * o,
            1000 <= k < 100_000,
            o > 0,
    ;
}

/// A number from 100000 up is taken for tens of hertz: what is at most nine tenths above a
/// whole number of kilohertz is cut to it.
pub proof fn tens_of_hertz_are_cut(digits: nat, exponent: int, k: nat)
    requires
        1000 <= k <= u32::MAX,
        100 * k * bottom(exponent) <= top(digits, exponent),
        top(digits, exponent) <= (100 * k + 90) * bottom(exponent),
    ensures
        scaled_part(Number::Finite { negative: false, digits, exponent }) == k,
{
    let a = top(digits, exponent);
    let b = bottom(exponent);
    let o = one();
    lemma_quotient(digits, exponent);
    lemma_pow2_pos(1074);
    lemma2_to64();
    lemma2_to64_rest();
    lemma_in_units(a, b, 100 * k, 100 * k + 90, 1);
    let u = units(digits, exponent);
    lemma_pow2_adds(49, 1074);
    assert(a * o < (pow2(49) * o) * b) by (nonlinear_arith)
        requires
            a * o <= (100 * k + 90) * o * b,
            k <= u32::MAX,
            pow2(49) == 0x2_0000_0000_0000,
            o > 0,
            b > 0,
    ;
    crate::rounding::lemma_div_below(a * o, b, pow2(49) * o);
    lemma_pow2_adds(53, 1074);
    lemma_pow2_strictly_increases(1123, 1127);
    crate::rounding::lemma_nearest_at_least(a * o, b, 100 * k, 1074);
    crate::rounding::lemma_nearest_at_most(a * o, b, 100 * k + 90, 1074);
    assert(u >= 100_000 * o) by (nonlinear_arith)
        requires
            (100 * k) * o <= u,
            k >= 1000,
            o > 0,
    ;
    assert(k * o * 100 == (100 * k) * o) by (nonlinear_arith);
    assert((10 * k + 9) * o * 100 == 10 * ((100 * k + 90) * o)) by (nonlinear_arith);
    crate::rounding::lemma_nearest_keeps_whole(u, 100, k);
}

/// A number below 1000 is taken for megahertz: what is at most nine tenths above a whole number
/// of kilohertz is cut to it or to the one before it. A whole number of megahertz is taken as
/// it is.
pub proof fn megahertz_are_cut(digits: nat, exponent: int, k: nat)
    requires
        0 < k < 1_000_000,
        k * bottom(exponent) <= 1000 * top(digits, exponent),
        10_000 * top(digits, exponent) <= (10 * k + 9) * bottom(exponent),
    ensures
        ({
            let read = scaled_part(Number::Finite { negative: false, digits, exponent });
            &&& k - 1 <= read <= k
            &&& k % 1000 == 0 && 1000 * top(digits, exponent) == k * bottom(exponent) ==> read == k
        }),
{
    let a = top(digits, exponent);
    let b = bottom(exponent);
    let o = one();
    lemma_quotient(digits, exponent);
    lemma_pow2_pos(1074);
    lemma_in_units(1000 * a, b, k, 10 * k + 9, 10);
    assert((1000 * a) * o == 1000 * (a * o)) by (nonlinear_arith);
    assert(10_000 * (a * o) <= 9_999_999 * o * b) by (nonlinear_arith)
        requires
            10_000 * (a * o) <= (10 * k + 9) * o * b,
            k < 1_000_000,
            o > 0,
            b > 0,
    ;
    crate::rounding::lemma_nearest_below_thousand(a * o, b);
    crate::rounding::lemma_thousandth_times_thousand(a * o, b, k);
    let u = units(digits, exponent);
    assert(u < 100_000 * o) by (nonlinear_arith)
        requires
            u < 1000 * o,
            o > 0,
    ;
    if k % 1000 == 0 && 1000 * a == k * b {
        let m = k / 1000;
        assert(k == 1000 * m);
        assert(a == m * b) by (nonlinear_arith)
            requires
                1000 * a == k * b,
                k == 1000 * m,
        ;
        assert(a * o == (m * o) * b) by (nonlinear_arith)
            requires
                a == m * b,
        ;
        assert(1 * b == b);
        lemma2_to64_rest();
        crate::rounding::lemma_nearest_scaled(m * o, 1, b);
        crate::rounding::lemma_nearest_whole(m);
        assert(1000 * (m * o) == k * o) by (nonlinear_arith)
            requires
                k == 1000 * m,
        ;
        crate::rounding::lemma_nearest_whole(k);
        lemma_fundamental_div_mod_converse((k * o) as int, o as int, k as int, 0);
    }
}

/// Zero is read as zero.
pub proof fn lemma_zero_is_read()
    ensures
        scaled_part(Number::Finite { negative: false, digits: 0, exponent: 0 }) == 0,
        whole_part(Number::Finite { negative: false, digits: 0, exponent: 0 }) == 0,
{
    let o = one();
    lemma_pow2_pos(1074);
    assert(0 * pow10(0) * o == 0) by (nonlinear_arith);
    assert(nearest(0, 1) == 0) by {
        let place = pow2(crate::rounding::last_place(0));
        lemma_pow2_pos(crate::rounding::last_place(0));
        assert(1 * place == place);
        assert(half_even(0, place) == 0) by {
            lemma_small_mod(0, place);
            lemma_basic_div(0, place as int);
        }
        assert(0 * place == 0);
    }
    assert(0nat / o == 0) by {
        lemma_basic_div(0, o as int);
    }
}

/// Bounds of a quotient, in units.
proof fn lemma_in_units(a: nat, b: nat, low: nat, high: nat, c: nat)
    requires
        low * b <= a,
        c * a <= high * b,
    ensures
        low * one() * b <= a * one(),
        c * (a * one()) <= high * one() * b,
{
    let o = one();
    assert(low * o * b <= a * o) by (nonlinear_arith)
        requires
            low * b <= a,
            o >= 0,
    ;
    assert(c * (a * o) <= high * o * b) by (nonlinear_arith)
        requires
            c * a <= high * b,
            o >= 0,
    ;
}

/// A sign in front of a number that has none is its sign.
pub proof fn signs_are_read(s: Seq<char>)
    requires
        s.len() > 0 ==> s[0] != '+' && s[0] != '-',
    ensures
        number(seq!['+'] + s) == number(s),
        number(seq!['-'] + s) == (match number(s) {
            Some(Number::Finite { digits, exponent, .. }) => Some(
                Number::Finite { negative: true, digits, exponent },
            ),
            Some(Number::Infinite { .. }) => Some(Number::Infinite { negative: true }),
            other => other,
        }),
{
    assert((seq!['+'] + s).skip(1) == s);
    assert((seq!['-'] + s).skip(1) == s);
}

/// A power of ten behind a number moves its point: to the right, or to the left where it has a
/// minus sign.
pub proof fn powers_of_ten_move_the_point(before: Seq<char>, after: Seq<char>, power: Seq<char>)
    requires
        before.len() > 0,
        all_digits(before),
        all_digits(after),
        power.len() > 0,
        all_digits(power),
    ensures
        ({
            let s = before.push('.') + after;
            let digits = num(digit_values(before + after));
            let n = num(digit_values(power)) as int;
            let up = Some(
                Number::Finite { negative: false, digits, exponent: n - after.len() },
            );
            let down = Some(
                Number::Finite { negative: false, digits, exponent: -n - after.len() },
            );
            &&& number(s + seq!['e'] + power) == up
            &&& number(s + seq!['E'] + power) == up
            &&& number(s + seq!['e', '+'] + power) == up
            &&& number(s + seq!['e', '-'] + power) == down
        }),
{
    lemma_with_power(before, after, 'e', power);
    lemma_with_power(before, after, 'E', power);
    lemma_with_power(before, after, 'e', seq!['+'] + power);
    lemma_with_power(before, after, 'e', seq!['-'] + power);
    let s = before.push('.') + after;
    assert(s + seq!['e'] + (seq!['+'] + power) =~= s + seq!['e', '+'] + power);
    assert(s + seq!['e'] + (seq!['-'] + power) =~= s + seq!['e', '-'] + power);
    assert((seq!['+'] + power).skip(1) == power);
    assert((seq!['-'] + power).skip(1) == power);
    assert(is_digit(power[0]));
}

proof fn lemma_with_power(before: Seq<char>, after: Seq<char>, mark: char, power: Seq<char>)
    requires
        before.len() > 0,
        all_digits(before),
        all_digits(after),
        mark == 'e' || mark == 'E',
        power_of_ten(power) is Some,
    ensures
        number(before.push('.') + after + seq![mark] + power) == Some(
            Number::Finite {
                negative: false,
                digits: num(digit_values(before + after)),
                exponent: power_of_ten(power)->0 - after.len(),
            },
        ),
{
    let m = before.push('.') + after;
    let s = m + seq![mark] + power;
    let k = m.len() as int;
    let n = before.len() as int;
    assert(s[0] == before[0]);
    assert(is_digit(before[0]));
    assert(unsigned(s) == s);
    let r = s.map_values(|c: char| raised(c));
    assert(r[0] == s[0]);
    assert(!spells(s, seq!['N', 'A', 'N']));
    assert(!spells(s, seq!['I', 'N', 'F']));
    assert(!spells(s, seq!['I', 'N', 'F', 'I', 'N', 'I', 'T', 'Y']));
    assert forall|j: int| 0 <= j < k implies s[j] != 'e' && s[j] != 'E' && s[j] == m[j] && (j != n
        ==> m[j] != '.') by {
        if j < n {
            assert(s[j] == before[j]);
            assert(is_digit(before[j]));
        } else if j > n {
            assert(s[j] == after[j - n - 1]);
            assert(is_digit(after[j - n - 1]));
        } else {
            assert(s[j] == '.');
        }
    }
    assert(s[k] == mark);
    let other = if mark == 'e' {
        'E'
    } else {
        'e'
    };
    crate::text::lemma_find_at(s, mark, k);
    crate::text::lemma_find(s, other);
    assert(find(s, other) > k) by {
        if find(s, other) <= k {
            assert(s[find(s, other)] == other);
        }
    }
    assert(mark_place(s) == k);
    assert(s.take(k) == m);
    assert(s.skip(k + 1) == power);
    crate::text::lemma_find_at(m, '.', n);
    assert(m.take(n) == before);
    assert(m.skip(n + 1) == after);
}

/// A finite number is spelt with digits, signs, a point and an exponent mark, and with nothing
/// else.
pub proof fn numbers_hold_nothing_else(s: Seq<char>, i: int)
    requires
        number(s) is Some,
        number(s)->0 is Finite,
        0 <= i < s.len(),
    ensures
        is_digit(s[i]) || s[i] == '+' || s[i] == '-' || s[i] == '.' || s[i] == 'e' || s[i] == 'E',
{
    let body = unsigned(s);
    let d = s.len() - body.len();
    let k = mark_place(body);
    crate::text::lemma_find(body, 'e');
    crate::text::lemma_find(body, 'E');
    if i >= d {
        let j = i - d;
        assert(body[j] == s[i]);
        let m = body.take(k);
        if j < k {
            let p = find(m, '.');
            crate::text::lemma_find(m, '.');
            assert(m[j] == body[j]);
            if j < p {
                assert(m.take(p)[j] == m[j]);
                assert(is_digit(m.take(p)[j]));
            } else if j > p {
                assert(m.skip(p + 1)[j - p - 1] == m[j]);
                assert(is_digit(m.skip(p + 1)[j - p - 1]));
            }
        } else if j > k {
            let x = body.skip(k + 1);
            assert(x[j - k - 1] == body[j]);
            let u = unsigned(x);
            if has_sign(x) {
                if j > k + 1 {
                    assert(u[j - k - 2] == x[j - k - 1]);
                    assert(is_digit(u[j - k - 2]));
                }
            } else {
                assert(is_digit(u[j - k - 1]));
            }
        }
    }
}

} // verus!
