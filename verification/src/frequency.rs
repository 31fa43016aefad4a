//! Radio frequencies as whole numbers of picohertz, and the decimal numbers of the log formats.
use vstd::prelude::*;

use crate::numbers;
use crate::text;
use crate::text::CharClass;

verus! {

/// A frequency. Decimal fractions below a picohertz are cut off.
#[derive(Debug, Clone, Copy, PartialEq, Eq, Structural)]
pub struct Frequency {
    pub picohertz: i128,
}

pub const PICOHERTZ_PER_KHZ: i128 = 1_000_000_000_000_000;

/// A frequency that is read from a decimal number counts up to this, on either side of zero.
pub const LARGEST_PICOHERTZ: i128 = 1_000_000_000_000_000_000_000_000_000_000_000_000;

/// The exponent of a decimal number counts up to this.
pub const LARGEST_EXPONENT: i64 = 1_000_000;

impl Frequency {
    /// `khz` whole kilohertz.
    pub fn from_khz(khz: u32) -> (r: Frequency)
        ensures
            r.picohertz == khz * 1_000_000_000_000_000,
    {
        Frequency { picohertz: khz as i128 * PICOHERTZ_PER_KHZ }
    }

    /// `tenths` tenths of a kilohertz.
    pub fn from_tenths(tenths: u32) -> (r: Frequency)
        ensures
            r.picohertz == tenths * 100_000_000_000_000,
    {
        Frequency { picohertz: tenths as i128 * 100_000_000_000_000 }
    }

    /// The frequency in tenths of a kilohertz, rounded to the nearest; halves away from zero.
    pub open spec fn tenths(self) -> int {
        if self.picohertz >= 0 {
            (self.picohertz + 50_000_000_000_000) / 100_000_000_000_000
        } else {
            -((50_000_000_000_000 - self.picohertz) / 100_000_000_000_000)
        }
    }

    pub fn rounded_tenths(self) -> (r: i128)
        ensures
            r == self.tenths(),
    {
        let tenth: i128 = 100_000_000_000_000;
        let half: i128 = 50_000_000_000_000;
        // The remainder is rounded by itself, so that no sum leaves the range.
        if self.picohertz >= 0 {
            self.picohertz / tenth + (self.picohertz % tenth + half) / tenth
        } else {
            let below: i128 = -(self.picohertz + 1);
            -(below / tenth + (below % tenth + 1 + half) / tenth)
        }
    }
}

// ---------------------------------------------------------------------------------------------
// Decimal numbers
// ---------------------------------------------------------------------------------------------
/// The model of a decimal number: `0.d1d2d3..` times ten to the power `point`.
#[verifier::ext_equal]
pub struct DecimalModel {
    pub negative: bool,
    pub digits: Seq<char>,
    pub point: int,
}

/// The number that the first `count` of `digits` spell, with zeros for the digits that are not
/// there; at most `max`.
pub open spec fn leading(digits: Seq<char>, count: int, max: int) -> int
    decreases count,
{
    if count <= 0 {
        0
    } else {
        let n = 10 * leading(digits, count - 1, max) + if count <= digits.len() {
            text::digit_value(digits[count - 1]) as int
        } else {
            0
        };
        if n < max {
            n
        } else {
            max
        }
    }
}

impl DecimalModel {
    /// The number before the decimal point, without its sign, and at most the largest.
    pub open spec fn whole(self) -> int {
        leading(self.digits, self.point, LARGEST_PICOHERTZ as int)
    }

    /// There is something behind the decimal point.
    pub open spec fn has_fraction(self) -> bool {
        exists|i: int|
            0 <= i < self.digits.len() && self.point <= i && #[trigger] self.digits[i] != '0'
    }

    /// The number times ten to the power `places`, cut off at the decimal point and held to the
    /// largest on either side of zero.
    pub open spec fn scaled(self, places: int) -> int {
        let size = leading(self.digits, self.point + places, LARGEST_PICOHERTZ as int);
        if self.negative {
            -size
        } else {
            size
        }
    }
}

pub open spec fn all_digits(s: Seq<char>) -> bool {
    forall|i: int| 0 <= i < s.len() ==> text::is_digit(#[trigger] s[i])
}

/// `s` without the sign that may stand before a number.
pub open spec fn after_sign(s: Seq<char>) -> Seq<char> {
    if s.len() > 0 && (s[0] == '+' || s[0] == '-') {
        s.skip(1)
    } else {
        s
    }
}

pub open spec fn has_minus(s: Seq<char>) -> bool {
    s.len() > 0 && s[0] == '-'
}

/// An exponent: an optional sign and at least one digit.
pub open spec fn exponent_reading(s: Seq<char>) -> Option<int> {
    let d = after_sign(s);
    if d.len() == 0 || !all_digits(d) {
        None
    } else if has_minus(s) {
        Some(-leading(d, d.len() as int, LARGEST_EXPONENT as int))
    } else {
        Some(leading(d, d.len() as int, LARGEST_EXPONENT as int))
    }
}

/// The digits of `m`, with a decimal point before, among or behind them, or none; and how many
/// stand before the point.
pub open spec fn mantissa_reading(m: Seq<char>) -> Option<(Seq<char>, nat)> {
    let n = text::span(m, CharClass::Is('.')) as int;
    let whole = m.take(n);
    let fraction = if n < m.len() {
        m.skip(n + 1)
    } else {
        Seq::empty()
    };
    if !all_digits(whole) || !all_digits(fraction) || whole.len() + fraction.len() == 0 {
        None
    } else {
        Some((whole + fraction, whole.len()))
    }
}

/// `s` read as a decimal number: an optional sign; digits with a decimal point before, among or
/// behind them, or none; and an optional exponent behind `e` or `E`. Infinities and the like are
/// no decimal numbers.
pub open spec fn decimal_reading(s: Seq<char>) -> Option<DecimalModel> {
    let u = after_sign(s);
    let e = text::span(u, CharClass::Exponent) as int;
    let exponent = if e < u.len() {
        exponent_reading(u.skip(e + 1))
    } else {
        Some(0)
    };
    match (mantissa_reading(u.take(e)), exponent) {
        (Some(m), Some(x)) => Some(
            DecimalModel { negative: has_minus(s), digits: m.0, point: m.1 + x },
        ),
        _ => None,
    }
}

/// A decimal number as it was written.
pub struct Decimal {
    negative: bool,
    digits: Vec<char>,
    point: i128,
}

impl View for Decimal {
    type V = DecimalModel;

    closed spec fn view(&self) -> DecimalModel {
        DecimalModel { negative: self.negative, digits: self.digits@, point: self.point as int }
    }
}

proof fn lemma_leading_bound(digits: Seq<char>, count: int, max: int)
    requires
        max >= 0,
    ensures
        0 <= leading(digits, count, max) <= max,
    decreases count,
{
    if count > 0 {
        lemma_leading_bound(digits, count - 1, max);
    }
}

proof fn lemma_leading_full(digits: Seq<char>, from: int, count: int, max: int)
    requires
        0 <= from <= count,
        max >= 0,
        leading(digits, from, max) == max,
    ensures
        leading(digits, count, max) == max,
    decreases count,
{
    if from < count {
        lemma_leading_full(digits, from, count - 1, max);
    }
}

fn leading_number(digits: &Vec<char>, count: i128, max: i128) -> (r: i128)
    requires
        all_digits(digits@),
        0 < max <= LARGEST_PICOHERTZ,
    ensures
        r == leading(digits@, count as int, max as int),
        0 <= r <= max,
{
    let mut n: i128 = 0;
    let mut i: i128 = 0;
    while i < count
        invariant
            0 <= i,
            i <= count || i == 0,
            0 < max <= LARGEST_PICOHERTZ,
            0 <= n <= max,
            all_digits(digits@),
            n == leading(digits@, i as int, max as int),
        decreases count - i,
    {
        if n == max {
            proof {
                lemma_leading_full(digits@, i as int, count as int, max as int);
            }
            return max;
        }
        let d: i128 = if i < digits.len() as i128 {
            (digits[i as usize] as u8 - 48) as i128
        } else {
            0
        };
        let next: i128 = n * 10 + d;
        i = i + 1;
        assert(leading(digits@, i as int, max as int) == if next < max {
            next as int
        } else {
            max as int
        });
        n = if next < max {
            next
        } else {
            max
        };
    }
    n
}

/// Copies the characters `from..to` of `v` where they are all digits.
fn digits_between(v: &Vec<char>, from: usize, to: usize) -> (r: Option<Vec<char>>)
    requires
        from <= to <= v@.len(),
    ensures
        match r {
            Some(d) => d@ == v@.subrange(from as int, to as int) && all_digits(d@),
            None => !all_digits(v@.subrange(from as int, to as int)),
        },
{
    let mut out: Vec<char> = Vec::new();
    let mut i: usize = from;
    while i < to
        invariant
            from <= i <= to <= v@.len(),
            out@ == v@.subrange(from as int, i as int),
            all_digits(out@),
        decreases to - i,
    {
        if !text::digit(v[i]) {
            assert(v@.subrange(from as int, to as int)[i - from] == v@[i as int]);
            return None;
        }
        out.push(v[i]);
        i = i + 1;
    }
    Some(out)
}

fn read_exponent(v: &Vec<char>, from: usize) -> (r: Option<i64>)
    requires
        from <= v@.len(),
    ensures
        match r {
            Some(x) => exponent_reading(v@.skip(from as int)) == Some(x as int),
            None => exponent_reading(v@.skip(from as int)) is None,
        },
        r matches Some(x) ==> -LARGEST_EXPONENT <= x <= LARGEST_EXPONENT,
{
    let ghost s = v@.skip(from as int);
    let signed = from < v.len() && (v[from] == '+' || v[from] == '-');
    let minus = from < v.len() && v[from] == '-';
    let start: usize = if signed {
        from + 1
    } else {
        from
    };
    assert(after_sign(s) =~= v@.subrange(start as int, v@.len() as int));
    match digits_between(v, start, v.len()) {
        None => None,
        Some(d) => {
            if d.len() == 0 {
                None
            } else {
                let size: i64 = leading_number(&d, d.len() as i128, LARGEST_EXPONENT as i128) as i64;
                if minus {
                    Some(-size)
                } else {
                    Some(size)
                }
            }
        },
    }
}

fn read_mantissa(v: &Vec<char>, start: usize, end: usize) -> (r: Option<(Vec<char>, usize)>)
    requires
        start <= end <= v@.len(),
    ensures
        match r {
            Some(d) => mantissa_reading(v@.subrange(start as int, end as int)) == Some(
                (d.0@, d.1 as nat),
            ) && all_digits(d.0@),
            None => mantissa_reading(v@.subrange(start as int, end as int)) is None,
        },
{
    let ghost m = v@.subrange(start as int, end as int);
    let mut dot: usize = start;
    while dot < end && v[dot] != '.'
        invariant
            start <= dot <= end <= v@.len(),
            m == v@.subrange(start as int, end as int),
            text::span(m, CharClass::Is('.')) == (dot - start) + text::span(
                v@.subrange(dot as int, end as int),
                CharClass::Is('.'),
            ),
        decreases end - dot,
    {
        assert(v@.subrange(dot as int, end as int).drop_first() =~= v@.subrange(
            dot + 1,
            end as int,
        ));
        dot = dot + 1;
    }
    let ghost n = dot - start;
    assert(text::span(m, CharClass::Is('.')) == n);
    assert(m.take(n) =~= v@.subrange(start as int, dot as int));
    let behind: usize = if dot < end {
        dot + 1
    } else {
        end
    };
    assert((if n < m.len() {
        m.skip(n + 1)
    } else {
        Seq::empty()
    }) =~= v@.subrange(behind as int, end as int));
    match (digits_between(v, start, dot), digits_between(v, behind, end)) {
        (Some(whole), Some(fraction)) => {
            if whole.len() == 0 && fraction.len() == 0 {
                return None;
            }
            let count = whole.len();
            let mut digits = whole;
            let mut rest = fraction;
            digits.append(&mut rest);
            assert(digits@ =~= whole@ + fraction@);
            Some((digits, count))
        },
        _ => None,
    }
}

impl Decimal {
    /// Reads a decimal number.
    pub fn read(s: &str) -> (r: Option<Decimal>)
        ensures
            match r {
                Some(d) => decimal_reading(s@) == Some(d@) && d.well_formed(),
                None => decimal_reading(s@) is None,
            },
    {
        let v = text::chars_of(s);
        let signed = v.len() > 0 && (v[0] == '+' || v[0] == '-');
        let negative = v.len() > 0 && v[0] == '-';
        let start: usize = if signed {
            1
        } else {
            0
        };
        let ghost u = after_sign(s@);
        assert(u =~= v@.skip(start as int));
        let e = text::find_class(&v, start, CharClass::Exponent);
        assert(u.take(e - start) =~= v@.subrange(start as int, e as int));
        let (digits, count) = match read_mantissa(&v, start, e) {
            Some(d) => d,
            None => return None,
        };
        let exponent: i64 = if e < v.len() {
            assert(u.skip(e - start + 1) =~= v@.skip(e + 1));
            match read_exponent(&v, e + 1) {
                Some(x) => x,
                None => return None,
            }
        } else {
            0
        };
        let point: i128 = count as i128 + exponent as i128;
        Some(Decimal { negative, digits, point })
    }

    /// What every number that was read satisfies.
    pub closed spec fn well_formed(self) -> bool {
        &&& all_digits(self.digits@)
        &&& -1_000_000 <= self.point <= usize::MAX + 1_000_000
    }

    /// The number times ten to the power `places`.
    pub fn times_power(&self, places: u8) -> (r: i128)
        requires
            self.well_formed(),
        ensures
            r == self@.scaled(places as int),
    {
        let size = leading_number(&self.digits, self.point + places as i128, LARGEST_PICOHERTZ);
        if self.negative {
            -size
        } else {
            size
        }
    }

    /// Whether there is something behind the decimal point.
    fn goes_on(&self) -> (r: bool)
        ensures
            r == self@.has_fraction(),
    {
        let mut i: usize = 0;
        while i < self.digits.len()
            invariant
                i <= self.digits@.len(),
                forall|j: int|
                    0 <= j < i && self@.point <= j ==> #[trigger] self@.digits[j] == '0',
            decreases self.digits.len() - i,
        {
            if self.point <= i as i128 && self.digits[i] != '0' {
                assert(self@.digits[i as int] != '0');
                return true;
            }
            i = i + 1;
        }
        false
    }

    /// The frequency that the number is where no unit stands with it.
    pub fn guess_unit(&self) -> (r: Frequency)
        requires
            self.well_formed(),
        ensures
            r.picohertz == guessed_decimal(self@),
    {
        let whole = leading_number(&self.digits, self.point, LARGEST_PICOHERTZ);
        let above = !self.negative && (whole > 1_000_000 || (whole == 1_000_000 && self.goes_on()));
        let below = self.negative || whole < 1_000;
        let places: u8 = if above {
            12
        } else if below {
            18
        } else {
            15
        };
        Frequency { picohertz: self.times_power(places) }
    }
}

/// The frequency that `s` names in megahertz, in picohertz.
pub open spec fn megahertz_reading(s: Seq<char>) -> Option<int> {
    match decimal_reading(s) {
        Some(d) => Some(d.scaled(18)),
        None => None,
    }
}

/// The frequency that `s` names in kilohertz, in picohertz.
pub open spec fn kilohertz_reading(s: Seq<char>) -> Option<int> {
    match decimal_reading(s) {
        Some(d) => Some(d.scaled(15)),
        None => None,
    }
}

/// Reads a frequency in megahertz.
pub fn read_megahertz(s: &str) -> (r: Option<Frequency>)
    ensures
        match r {
            Some(f) => megahertz_reading(s@) == Some(f.picohertz as int),
            None => megahertz_reading(s@) is None,
        },
{
    match Decimal::read(s) {
        Some(d) => Some(Frequency { picohertz: d.times_power(18) }),
        None => None,
    }
}

/// Reads a frequency in kilohertz.
pub fn read_kilohertz(s: &str) -> (r: Option<Frequency>)
    ensures
        match r {
            Some(f) => kilohertz_reading(s@) == Some(f.picohertz as int),
            None => kilohertz_reading(s@) is None,
        },
{
    match Decimal::read(s) {
        Some(d) => Some(Frequency { picohertz: d.times_power(15) }),
        None => None,
    }
}

/// The power of ten that takes a bare number to picohertz: above a million it counts in hertz, below
/// a thousand in megahertz, and between them in kilohertz.
pub open spec fn guessed_places(above_a_million: bool, below_a_thousand: bool) -> int {
    if above_a_million {
        12
    } else if below_a_thousand {
        18
    } else {
        15
    }
}

/// The frequency that a bare decimal number is, in picohertz.
pub open spec fn guessed_decimal(d: DecimalModel) -> int {
    d.scaled(
        guessed_places(
            !d.negative && (d.whole() > 1_000_000 || (d.whole() == 1_000_000 && d.has_fraction())),
            d.negative || d.whole() < 1_000,
        ),
    )
}

/// The frequency that a bare whole number is, in picohertz.
pub open spec fn guessed_whole(n: int) -> int {
    if n > 1_000_000 {
        n * 1_000_000_000_000
    } else if n < 1_000 {
        n * 1_000_000_000_000_000_000
    } else {
        n * 1_000_000_000_000_000
    }
}

/// The frequency that a whole number is where no unit stands with it.
pub fn guess_unit(n: i128) -> (r: Frequency)
    requires
        i64::MIN <= n <= u64::MAX,
    ensures
        r.picohertz == guessed_whole(n as int),
{
    Frequency {
        picohertz: if n > 1_000_000 {
            n * 1_000_000_000_000
        } else if n < 1_000 {
            n * 1_000_000_000_000_000_000
        } else {
            n * PICOHERTZ_PER_KHZ
        },
    }
}

// ---------------------------------------------------------------------------------------------
// Laws of frequencies
// ---------------------------------------------------------------------------------------------
/// The tenths of a kilohertz are the nearest: no more than half a tenth away, and at half a tenth
/// those farther from zero.
pub proof fn law_nearest_tenths(f: Frequency)
    ensures
        -50_000_000_000_000 <= f.picohertz - f.tenths() * 100_000_000_000_000
            <= 50_000_000_000_000,
        f.picohertz - f.tenths() * 100_000_000_000_000 == 50_000_000_000_000 ==> f.picohertz < 0,
        f.picohertz - f.tenths() * 100_000_000_000_000 == -50_000_000_000_000 ==> f.picohertz > 0,
{
}

proof fn lemma_leading_is_reading(d: Seq<char>, count: int, max: int)
    requires
        0 <= count <= d.len(),
        all_digits(d),
        max > 0,
    ensures
        numbers::digits_reading(d.take(count), (max - 1) as nat) matches Ok(n) ==> leading(
            d,
            count,
            max,
        ) == n,
    decreases count,
{
    if count > 0 {
        lemma_leading_is_reading(d, count - 1, max);
        assert(d.take(count).drop_last() =~= d.take(count - 1));
        assert(d.take(count).last() == d[count - 1]);
    }
}

/// The number ten to the power `n`.
pub open spec fn ten_to(n: nat) -> int
    decreases n,
{
    if n == 0 {
        1
    } else {
        10 * ten_to((n - 1) as nat)
    }
}

proof fn lemma_leading_padded(d: Seq<char>, more: nat, max: int)
    requires
        max > 0,
        0 <= leading(d, d.len() as int, max),
        leading(d, d.len() as int, max) * ten_to(more) < max,
    ensures
        leading(d, d.len() as int + more as int, max) == leading(d, d.len() as int, max) * ten_to(more),
        ten_to(more) >= 1,
    decreases more,
{
    let n = leading(d, d.len() as int, max);
    if more > 0 {
        let less = (more - 1) as nat;
        lemma_ten(less);
        assert(n * ten_to(more) == 10 * (n * ten_to(less))) by (nonlinear_arith)
            requires
                ten_to(more) == 10 * ten_to(less),
        ;
        assert(0 <= n * ten_to(less)) by (nonlinear_arith)
            requires
                n >= 0,
                ten_to(less) >= 1,
        ;
        lemma_leading_padded(d, less, max);
    } else {
        assert(n * 1 == n);
    }
}

proof fn lemma_ten(n: nat)
    ensures
        ten_to(n) >= 1,
    decreases n,
{
    if n > 0 {
        lemma_ten((n - 1) as nat);
    }
}

/// A number of kilohertz in decimal reads as that many kilohertz, and one of megahertz as that many
/// megahertz; with a minus sign before it the frequency is that below zero.
pub proof fn law_whole_frequencies_read(n: nat)
    requires
        n < 1_000_000_000,
    ensures
        kilohertz_reading(numbers::decimal(n)) == Some(n as int * 1_000_000_000_000_000),
        megahertz_reading(numbers::decimal(n)) == Some(n as int * 1_000_000_000_000_000_000),
        kilohertz_reading(seq!['-'] + numbers::decimal(n)) == Some(-(n as int * 1_000_000_000_000_000)),
        kilohertz_reading(seq!['+'] + numbers::decimal(n)) == Some(n as int * 1_000_000_000_000_000),
{
    let d = numbers::decimal(n);
    let max = LARGEST_PICOHERTZ as int;
    numbers::law_decimal_reads_back(n, (max - 1) as nat);
    assert(all_digits(d)) by {
        assert forall|i: int| 0 <= i < d.len() implies text::is_digit(#[trigger] d[i]) by {
            assert(48 <= d[i] as int <= 57);
        }
    }
    lemma_leading_is_reading(d, d.len() as int, max);
    assert(d.take(d.len() as int) =~= d);
    assert(leading(d, d.len() as int, max) == n);
    lemma_plain_digits(d);
    assert((seq!['-'] + d).skip(1) =~= d);
    assert((seq!['+'] + d).skip(1) =~= d);
    assert(d[0] as int != 43 && d[0] as int != 45);
    assert(ten_to(15) == 1_000_000_000_000_000 && ten_to(18) == 1_000_000_000_000_000_000) by {
        reveal_with_fuel(ten_to, 19);
    }
    lemma_leading_padded(d, 15, max);
    lemma_leading_padded(d, 18, max);
    assert(after_sign(d) == d);
    assert(after_sign(seq!['-'] + d) == d);
    assert(after_sign(seq!['+'] + d) == d);
}

proof fn lemma_plain_digits(d: Seq<char>)
    requires
        d.len() > 0,
        all_digits(d),
    ensures
        text::span(d, CharClass::Exponent) == d.len(),
        text::span(d, CharClass::Is('.')) == d.len(),
        d.take(d.len() as int) == d,
        mantissa_reading(d) == Some((d, d.len())),
{
    text::lemma_span_bound(d, CharClass::Exponent);
    text::lemma_span_bound(d, CharClass::Is('.'));
    let n = text::span(d, CharClass::Exponent) as int;
    if n < d.len() {
        assert(text::is_digit(d[n]));
    }
    let m = text::span(d, CharClass::Is('.')) as int;
    if m < d.len() {
        assert(text::is_digit(d[m]));
    }
    assert(d.take(d.len() as int) =~= d);
    assert(d + Seq::<char>::empty() =~= d);
}

proof fn lemma_mantissa_with_point(whole: Seq<char>, fraction: Seq<char>)
    requires
        all_digits(whole),
        all_digits(fraction),
        whole.len() + fraction.len() > 0,
    ensures
        mantissa_reading(whole.push('.') + fraction) == Some((whole + fraction, whole.len())),
        text::span(whole.push('.') + fraction, CharClass::Exponent) == whole.len() + 1
            + fraction.len(),
{
    let m = whole.push('.') + fraction;
    text::lemma_span_bound(m, CharClass::Is('.'));
    let n = text::span(m, CharClass::Is('.')) as int;
    if n < whole.len() {
        assert(m[n] == whole[n]);
        assert(text::is_digit(whole[n]));
    }
    if n > whole.len() {
        assert(m[whole.len() as int] == '.');
    }
    assert(m.take(n) =~= whole);
    assert(m.skip(n + 1) =~= fraction);
    text::lemma_span_bound(m, CharClass::Exponent);
    let e = text::span(m, CharClass::Exponent) as int;
    if e < m.len() {
        if e < whole.len() {
            assert(m[e] == whole[e]);
            assert(text::is_digit(whole[e]));
        } else if e > whole.len() {
            assert(m[e] == fraction[e - whole.len() - 1]);
            assert(text::is_digit(fraction[e - whole.len() - 1]));
        } else {
            assert(m[e] == '.');
        }
    }
}

/// The digits behind the point of a frequency count each a tenth of the one before: moving the point
/// by three places takes megahertz to kilohertz.
pub proof fn law_point_moves_units(whole: Seq<char>, three: Seq<char>, fraction: Seq<char>)
    requires
        all_digits(whole),
        all_digits(three),
        three.len() == 3,
        all_digits(fraction),
        whole.len() > 0,
    ensures
        megahertz_reading(whole.push('.') + (three + fraction)) == kilohertz_reading(
            (whole + three).push('.') + fraction,
        ),
        megahertz_reading(whole.push('.') + (three + fraction)) is Some,
{
    let a = whole.push('.') + (three + fraction);
    let b = (whole + three).push('.') + fraction;
    assert(all_digits(three + fraction)) by {
        assert forall|i: int| 0 <= i < (three + fraction).len() implies text::is_digit(
            #[trigger] (three + fraction)[i],
        ) by {
            if i < 3 {
                assert((three + fraction)[i] == three[i]);
            } else {
                assert((three + fraction)[i] == fraction[i - 3]);
            }
        }
    }
    assert(all_digits(whole + three)) by {
        assert forall|i: int| 0 <= i < (whole + three).len() implies text::is_digit(
            #[trigger] (whole + three)[i],
        ) by {
            if i < whole.len() {
                assert((whole + three)[i] == whole[i]);
            } else {
                assert((whole + three)[i] == three[i - whole.len()]);
            }
        }
    }
    lemma_mantissa_with_point(whole, three + fraction);
    lemma_mantissa_with_point(whole + three, fraction);
    assert(a[0] == whole[0] && b[0] == whole[0]);
    assert(text::is_digit(whole[0]));
    assert(after_sign(a) == a && after_sign(b) == b);
    assert(a.take(a.len() as int) =~= a);
    assert(b.take(b.len() as int) =~= b);
    assert(whole + (three + fraction) =~= (whole + three) + fraction);
}

/// A whole number without a unit counts in kilohertz from a thousand to a million: less of it are
/// megahertz, more of it hertz, so that the same frequency in each unit reads the same.
pub proof fn law_units_are_guessed(khz: int)
    requires
        1_000 < khz <= 1_000_000,
    ensures
        guessed_whole(khz) == khz * 1_000_000_000_000_000,
        guessed_whole(khz * 1_000) == guessed_whole(khz),
        khz % 1_000 == 0 && khz < 1_000_000 ==> guessed_whole(khz / 1_000) == guessed_whole(khz),
        guessed_whole(1_000) == 1_000 * 1_000_000_000_000_000,
        guessed_whole(-khz) == -khz * 1_000_000_000_000_000_000,
{
}

/// A decimal number without a unit is read as the same digits with a unit: in megahertz below a
/// thousand, in kilohertz up to a million, in hertz above.
pub proof fn law_decimal_units_are_guessed(s: Seq<char>)
    requires
        decimal_reading(s) is Some,
    ensures
        ({
            let d = decimal_reading(s)->0;
            &&& d.negative || d.whole() < 1_000 ==> Some(guessed_decimal(d)) == megahertz_reading(s)
            &&& !d.negative && 1_000 <= d.whole() < 1_000_000 ==> Some(guessed_decimal(d))
                == kilohertz_reading(s)
            &&& !d.negative && d.whole() == 1_000_000 && !d.has_fraction() ==> Some(
                guessed_decimal(d),
            ) == kilohertz_reading(s)
            &&& !d.negative && (d.whole() > 1_000_000 || (d.whole() == 1_000_000
                && d.has_fraction())) ==> guessed_decimal(d) == d.scaled(12)
        }),
{
}

/// A number has a fraction where a digit other than zero stands behind its point.
pub proof fn law_fraction(d: DecimalModel, i: int)
    ensures
        0 <= i < d.digits.len() && i >= d.point && d.digits[i] != '0' ==> d.has_fraction(),
        d.has_fraction() ==> exists|k: int|
            0 <= k < d.digits.len() && k >= d.point && #[trigger] d.digits[k] != '0',
{
}

/// An exponent moves the point by as many places as it says, to the right, or behind a minus sign to
/// the left; a minus sign before the number makes it negative and changes nothing else.
pub proof fn law_exponent_moves_the_point(d: Seq<char>, mark: char, n: nat)
    requires
        d.len() > 0,
        all_digits(d),
        mark == 'e' || mark == 'E',
        n < LARGEST_EXPONENT,
    ensures
        decimal_reading(d + seq![mark] + numbers::decimal(n)) == Some(
            (DecimalModel { negative: false, digits: d, point: d.len() + n as int }),
        ),
        decimal_reading(d + seq![mark, '-'] + numbers::decimal(n)) == Some(
            (DecimalModel { negative: false, digits: d, point: d.len() - n }),
        ),
        decimal_reading(seq!['-'] + d) == Some(
            (DecimalModel { negative: true, digits: d, point: d.len() as int }),
        ),
{
    let x = numbers::decimal(n);
    let most = (LARGEST_EXPONENT - 1) as nat;
    numbers::law_decimal_reads_back(n, most);
    assert(all_digits(x)) by {
        assert forall|i: int| 0 <= i < x.len() implies text::is_digit(#[trigger] x[i]) by {
            assert(48 <= x[i] as int <= 57);
        }
    }
    assert(text::is_digit(d[0]));
    assert(text::is_digit(x[0]));
    assert(after_sign(x) == x);
    assert(!has_minus(x));
    assert(x.take(x.len() as int) =~= x);
    lemma_leading_is_reading(x, x.len() as int, LARGEST_EXPONENT as int);
    assert(exponent_reading(x) == Some(n as int));
    let y = seq!['-'] + x;
    assert(y[0] == '-');
    assert(after_sign(y) =~= x);
    assert(exponent_reading(y) == Some(-(n as int)));
    lemma_with_exponent(d, mark, x);
    lemma_with_exponent(d, mark, y);
    assert(d + seq![mark, '-'] + x =~= d + seq![mark] + y);
    lemma_plain_digits(d);
    let z = seq!['-'] + d;
    assert(z[0] == '-');
    assert(after_sign(z) =~= d);
}

proof fn lemma_with_exponent(d: Seq<char>, mark: char, x: Seq<char>)
    requires
        d.len() > 0,
        all_digits(d),
        mark == 'e' || mark == 'E',
    ensures
        decimal_reading(d + seq![mark] + x) == match exponent_reading(x) {
            Some(places) => Some(
                (DecimalModel { negative: false, digits: d, point: d.len() + places }),
            ),
            None => None,
        },
{
    let s = d + seq![mark] + x;
    assert(text::is_digit(d[0]));
    assert(s[0] == d[0]);
    assert(after_sign(s) == s && !has_minus(s));
    text::lemma_span_bound(s, CharClass::Exponent);
    let e = text::span(s, CharClass::Exponent) as int;
    assert(s[d.len() as int] == mark);
    assert(CharClass::Exponent.has(mark));
    if e < d.len() {
        assert(s[e] == d[e]);
        assert(text::is_digit(d[e]));
    }
    assert(e == d.len());
    assert(s.take(e) =~= d);
    assert(s.skip(e + 1) =~= x);
    lemma_plain_digits(d);
}

} // verus!
