//! Writing and reading whole numbers in decimal.
use vstd::prelude::*;

use crate::text;

verus! {

/// The decimal digits of `n`, without leading zeros.
pub open spec fn decimal(n: nat) -> Seq<char>
    decreases n,
{
    if n < 10 {
        seq![text::digit_char(n)]
    } else {
        decimal(n / 10).push(text::digit_char(n % 10))
    }
}

/// `n` in decimal, with a minus sign where it is negative.
pub open spec fn signed_decimal(n: int) -> Seq<char> {
    if n < 0 {
        seq!['-'] + decimal((-n) as nat)
    } else {
        decimal(n as nat)
    }
}

/// Appends `n` in decimal.
pub fn push_decimal(out: &mut String, n: u64)
    ensures
        final(out)@ == old(out)@ + decimal(n as nat),
    decreases n,
{
    let ghost start = out@;
    if n >= 10 {
        push_decimal(out, n / 10);
    }
    let d: u8 = (n % 10) as u8;
    out.push((48u8 + d) as char);
    assert(out@ =~= start + decimal(n as nat));
}

pub fn decimal_text(n: u64) -> (r: String)
    ensures
        r@ == decimal(n as nat),
{
    let mut out = String::new();
    push_decimal(&mut out, n);
    assert(out@ =~= decimal(n as nat));
    out
}

pub fn signed_text(n: i64) -> (r: String)
    ensures
        r@ == signed_decimal(n as int),
{
    if n >= 0 {
        decimal_text(n as u64)
    } else {
        let mut out = String::new();
        out.push('-');
        let size: u64 = (-(n + 1)) as u64 + 1;
        push_decimal(&mut out, size);
        assert(out@ =~= signed_decimal(n as int));
        out
    }
}

/// Why a text is not a whole number of the wanted size.
#[derive(Debug, Clone, Copy, PartialEq, Eq, Structural)]
pub enum IntError {
    Empty,
    InvalidDigit,
    TooLarge,
}

impl IntError {
    pub open spec fn text(self) -> Seq<char> {
        match self {
            IntError::Empty => "cannot parse integer from empty string"@,
            IntError::InvalidDigit => "invalid digit found in string"@,
            IntError::TooLarge => "number too large to fit in target type"@,
        }
    }

    pub fn message(self) -> (r: String)
        ensures
            r@ == self.text(),
    {
        match self {
            IntError::Empty => text::owned("cannot parse integer from empty string"),
            IntError::InvalidDigit => text::owned("invalid digit found in string"),
            IntError::TooLarge => text::owned("number too large to fit in target type"),
        }
    }
}

/// The number that the digits of `s` spell. The first character that is no digit, or that takes
/// the number past `max`, decides which error there is.
pub open spec fn digits_reading(s: Seq<char>, max: nat) -> Result<nat, IntError>
    decreases s.len(),
{
    if s.len() == 0 {
        Ok(0)
    } else {
        match digits_reading(s.drop_last(), max) {
            Err(e) => Err(e),
            Ok(n) => if !text::is_digit(s.last()) {
                Err(IntError::InvalidDigit)
            } else if 10 * n + text::digit_value(s.last()) > max {
                Err(IntError::TooLarge)
            } else {
                Ok(10 * n + text::digit_value(s.last()))
            },
        }
    }
}

/// `s` without the plus sign that may stand before an unsigned number.
pub open spec fn after_plus(s: Seq<char>) -> Seq<char> {
    if s.len() > 0 && s[0] == '+' {
        s.skip(1)
    } else {
        s
    }
}

/// `s` read as an unsigned number of at most `max`: digits, with an optional plus sign before.
pub open spec fn unsigned_reading(s: Seq<char>, max: nat) -> Result<nat, IntError> {
    if s.len() == 0 {
        Err(IntError::Empty)
    } else if after_plus(s).len() == 0 {
        Err(IntError::InvalidDigit)
    } else {
        digits_reading(after_plus(s), max)
    }
}

/// `s` read as a signed number from `-max - 1` to `max`.
pub open spec fn signed_reading(s: Seq<char>, max: nat) -> Option<int> {
    if s.len() > 1 && s[0] == '-' {
        match digits_reading(s.skip(1), max + 1) {
            Ok(n) => Some(-(n as int)),
            Err(_) => None,
        }
    } else {
        match unsigned_reading(s, max) {
            Ok(n) => Some(n as int),
            Err(_) => None,
        }
    }
}

proof fn lemma_reading_error_stays(s: Seq<char>, n: int, max: nat)
    requires
        0 <= n <= s.len(),
        digits_reading(s.take(n), max) is Err,
    ensures
        digits_reading(s, max) == digits_reading(s.take(n), max),
    decreases s.len(),
{
    if n < s.len() {
        assert(s.drop_last().take(n) =~= s.take(n));
        lemma_reading_error_stays(s.drop_last(), n, max);
    } else {
        assert(s.take(n) =~= s);
    }
}

pub proof fn lemma_reading_bound(s: Seq<char>, max: nat)
    ensures
        digits_reading(s, max) matches Ok(n) ==> n <= max,
    decreases s.len(),
{
    if s.len() > 0 {
        lemma_reading_bound(s.drop_last(), max);
    }
}

fn read_digits(v: &Vec<char>, from: usize, max: u64) -> (r: Result<u64, IntError>)
    requires
        from <= v@.len(),
    ensures
        match r {
            Ok(n) => digits_reading(v@.skip(from as int), max as nat) == Ok::<nat, IntError>(
                n as nat,
            ),
            Err(e) => digits_reading(v@.skip(from as int), max as nat) == Err::<nat, IntError>(e),
        },
{
    let ghost all = v@.skip(from as int);
    let mut n: u64 = 0;
    let mut i: usize = from;
    assert(all.take(0) =~= Seq::empty());
    while i < v.len()
        invariant
            from <= i <= v@.len(),
            all == v@.skip(from as int),
            n <= max,
            digits_reading(all.take(i - from), max as nat) == Ok::<nat, IntError>(n as nat),
        decreases v.len() - i,
    {
        let c = v[i];
        let ghost next = all.take(i - from + 1);
        assert(next.drop_last() =~= all.take(i - from));
        assert(next.last() == c);
        if !text::digit(c) {
            proof {
                lemma_reading_error_stays(all, i - from + 1, max as nat);
            }
            return Err(IntError::InvalidDigit);
        }
        let d: u64 = (c as u8 - 48) as u64;
        let sum: u128 = n as u128 * 10 + d as u128;
        if sum > max as u128 {
            proof {
                lemma_reading_error_stays(all, i - from + 1, max as nat);
            }
            return Err(IntError::TooLarge);
        }
        n = sum as u64;
        i = i + 1;
    }
    assert(all.take(all.len() as int) =~= all);
    Ok(n)
}

fn read_unsigned_chars(v: &Vec<char>, max: u64) -> (r: Result<u64, IntError>)
    ensures
        match r {
            Ok(n) => unsigned_reading(v@, max as nat) == Ok::<nat, IntError>(n as nat),
            Err(e) => unsigned_reading(v@, max as nat) == Err::<nat, IntError>(e),
        },
{
    if v.len() == 0 {
        return Err(IntError::Empty);
    }
    assert(v@.skip(0) =~= v@);
    let from: usize = if v[0] == '+' {
        1
    } else {
        0
    };
    if from == v.len() {
        return Err(IntError::InvalidDigit);
    }
    read_digits(v, from, max)
}

/// Reads an unsigned number of at most `max`.
pub fn read_unsigned(s: &str, max: u64) -> (r: Result<u64, IntError>)
    ensures
        match r {
            Ok(n) => unsigned_reading(s@, max as nat) == Ok::<nat, IntError>(n as nat),
            Err(e) => unsigned_reading(s@, max as nat) == Err::<nat, IntError>(e),
        },
        r matches Ok(n) ==> n <= max,
{
    let v = text::chars_of(s);
    proof {
        lemma_reading_bound(after_plus(v@), max as nat);
    }
    read_unsigned_chars(&v, max)
}

/// Reads a signed number from `-max - 1` to `max`.
pub fn read_signed(s: &str, max: u32) -> (r: Option<i64>)
    ensures
        match r {
            Some(n) => signed_reading(s@, max as nat) == Some(n as int),
            None => signed_reading(s@, max as nat) is None,
        },
        r matches Some(n) ==> -(max as int) - 1 <= n <= max,
{
    let v = text::chars_of(s);
    proof {
        lemma_reading_bound(after_plus(v@), max as nat);
        lemma_reading_bound(v@.skip(1), (max + 1) as nat);
    }
    if v.len() > 1 && v[0] == '-' {
        match read_digits(&v, 1, max as u64 + 1) {
            Ok(n) => Some(-(n as i64)),
            Err(_) => None,
        }
    } else {
        match read_unsigned_chars(&v, max as u64) {
            Ok(n) => Some(n as i64),
            Err(_) => None,
        }
    }
}

// ---------------------------------------------------------------------------------------------
// Laws of numbers
// ---------------------------------------------------------------------------------------------
/// A number in decimal has digits alone, no zero before the others, and reads back as the number.
pub proof fn law_decimal_reads_back(n: nat, max: nat)
    ensures
        decimal(n).len() > 0,
        forall|i: int|
            0 <= i < decimal(n).len() ==> 48 <= (#[trigger] decimal(n)[i]) as int <= 57,
        n > 0 ==> decimal(n)[0] != '0',
        n < 10 ==> decimal(n).len() == 1,
        n <= max ==> digits_reading(decimal(n), max) == Ok::<nat, IntError>(n),
        n <= max ==> unsigned_reading(decimal(n), max) == Ok::<nat, IntError>(n),
        n > max ==> unsigned_reading(decimal(n), max) == Err::<nat, IntError>(IntError::TooLarge),
    decreases n,
{
    let s = decimal(n);
    let d = text::digit_char(n % 10);
    assert(text::digit_value(d) == n % 10);
    if n < 10 {
        assert(s.drop_last() =~= Seq::<char>::empty());
        assert(digits_reading(s.drop_last(), max) == Ok::<nat, IntError>(0));
        assert(s.last() == text::digit_char(n));
    } else {
        law_decimal_reads_back(n / 10, max);
        assert(s.drop_last() =~= decimal(n / 10));
        assert(s.last() == d);
        assert forall|i: int| 0 <= i < s.len() implies 48 <= (#[trigger] s[i]) as int <= 57 by {
            if i < s.len() - 1 {
                assert(s[i] == decimal(n / 10)[i]);
            }
        }
        assert(s[0] == decimal(n / 10)[0]);
        assert(10 * (n / 10) + n % 10 == n);
    }
    assert(s[0] as int != 43);
    assert(after_plus(s) == s);
    if n > max {
        if n >= 10 && n / 10 > max {
            assert(unsigned_reading(decimal(n / 10), max) == digits_reading(decimal(n / 10), max)) by {
                assert(decimal(n / 10)[0] as int != 43);
            }
        }
    }
}

/// A number with a sign in decimal reads back as the number.
pub proof fn law_signed_decimal_reads_back(n: int, max: nat)
    requires
        -(max as int) - 1 <= n <= max,
    ensures
        signed_reading(signed_decimal(n), max) == Some(n),
        n < 0 <==> signed_decimal(n)[0] == '-',
{
    if n < 0 {
        law_decimal_reads_back((-n) as nat, max + 1);
        assert(signed_decimal(n).skip(1) =~= decimal((-n) as nat));
    } else {
        law_decimal_reads_back(n as nat, max);
        assert(signed_decimal(n)[0] as int != 45);
    }
}

/// Reading goes digit by digit: another digit makes the number ten times as large and adds its
/// value, and what is no digit is refused. A plus sign before a number does not matter.
pub proof fn law_reading_by_digits(s: Seq<char>, c: char, max: nat)
    ensures
        unsigned_reading(s, max) matches Ok(n) ==> unsigned_reading(s.push(c), max) == if !(48
            <= c as int <= 57) {
            Err::<nat, IntError>(IntError::InvalidDigit)
        } else if 10 * n + (c as int - 48) > max {
            Err::<nat, IntError>(IntError::TooLarge)
        } else {
            Ok::<nat, IntError>((10 * n + (c as int - 48)) as nat)
        },
        48 <= c as int <= 57 && max >= 9 ==> unsigned_reading(seq![c], max) == Ok::<nat, IntError>(
            (c as int - 48) as nat,
        ),
        unsigned_reading(Seq::<char>::empty(), max) is Err,
        s.len() > 0 && s[0] != '+' ==> unsigned_reading(seq!['+'] + s, max) == unsigned_reading(
            s,
            max,
        ),
        signed_reading(s, max) matches Some(n) ==> -(max as int) - 1 <= n <= max,
{
    if s.len() > 0 {
        let t = after_plus(s);
        assert(after_plus(s.push(c)) =~= t.push(c));
        assert(t.push(c).drop_last() =~= t);
        assert((seq!['+'] + s).skip(1) =~= s);
    }
    let one = seq![c];
    assert(one.drop_last() =~= Seq::<char>::empty());
    assert(digits_reading(one.drop_last(), max) == Ok::<nat, IntError>(0));
    lemma_reading_bound(after_plus(s), max);
    lemma_reading_bound(s.skip(1), max + 1);
}

} // verus!
