//! Bytes as text, and numbers and digests as bytes.
use vstd::prelude::*;

verus! {

/// The text of the error with which `std::str::from_utf8` refuses `bytes`.
pub uninterp spec fn utf8_fault(bytes: Seq<u8>) -> Seq<char>;

/// Calls `std::str::from_utf8`: it gives the characters that the bytes encode where they are
/// valid UTF-8, and an error where they are not.
#[verifier::external_body]
pub(crate) fn decode(bytes: &Vec<u8>) -> (r: Result<String, String>)
    ensures
        match r {
            Ok(s) => vstd::utf8::valid_utf8(bytes@) && s@ == vstd::utf8::decode_utf8(bytes@),
            Err(e) => !vstd::utf8::valid_utf8(bytes@) && e@ == utf8_fault(bytes@),
        },
{
    match std::str::from_utf8(bytes) {
        Ok(s) => Ok(s.to_string()),
        Err(e) => Err(e.to_string()),
    }
}

/// What `String::from_utf8_lossy` makes of bytes.
pub uninterp spec fn lossy_reading(bytes: Seq<u8>) -> Seq<char>;

/// Calls `String::from_utf8_lossy`: it gives the characters that the bytes encode where they are
/// valid UTF-8, and puts replacement characters for what is not.
#[verifier::external_body]
pub(crate) fn decode_lossy(bytes: &Vec<u8>) -> (r: String)
    ensures
        r@ == lossy_reading(bytes@),
        vstd::utf8::valid_utf8(bytes@) ==> r@ == vstd::utf8::decode_utf8(bytes@),
{
    String::from_utf8_lossy(bytes).to_string()
}

/// The text that bytes hold: the characters that they encode, or with replacement characters where
/// they are not valid UTF-8.
pub open spec fn text_in(bytes: Seq<u8>) -> Seq<char> {
    if vstd::utf8::valid_utf8(bytes) {
        vstd::utf8::decode_utf8(bytes)
    } else {
        lossy_reading(bytes)
    }
}

/// The text that the bytes of a text hold is that text.
pub proof fn law_text_comes_back(s: Seq<char>)
    ensures
        text_in(vstd::utf8::encode_utf8(s)) == s,
{
    vstd::utf8::encode_utf8_valid_utf8(s);
    vstd::utf8::encode_utf8_decode_utf8(s);
}

/// The SHA-256 digest of bytes, in hexadecimal.
pub uninterp spec fn sha256_text(bytes: Seq<u8>) -> Seq<char>;

/// Calls `sha2::Sha256::digest` and writes the digest in small hexadecimal digits. Nothing is
/// said of the digest but that it depends on the bytes alone.
#[verifier::external_body]
pub(crate) fn sha256_hex(bytes: &Vec<u8>) -> (r: String)
    ensures
        r@ == sha256_text(bytes@),
{
    format!("{:x}", <sha2::Sha256 as sha2::Digest>::digest(bytes))
}

/// The bytes `from..to`.
pub fn between(bytes: &[u8], from: usize, to: usize) -> (r: Vec<u8>)
    requires
        from <= to <= bytes@.len(),
    ensures
        r@ == bytes@.subrange(from as int, to as int),
{
    let mut out: Vec<u8> = Vec::new();
    let mut i: usize = from;
    while i < to
        invariant
            from <= i <= to <= bytes@.len(),
            out@ == bytes@.subrange(from as int, i as int),
        decreases to - i,
    {
        out.push(bytes[i]);
        i = i + 1;
        assert(bytes@.subrange(from as int, i as int) =~= bytes@.subrange(from as int, i - 1).push(
            bytes@[i - 1],
        ));
    }
    out
}

/// The position of the first byte `b` from `from` on; the number of bytes if there is none.
pub open spec fn position(bytes: Seq<u8>, b: u8, from: int) -> int
    decreases bytes.len() - from,
{
    if 0 <= from < bytes.len() {
        if bytes[from] == b {
            from
        } else {
            position(bytes, b, from + 1)
        }
    } else {
        bytes.len() as int
    }
}

pub proof fn lemma_position(bytes: Seq<u8>, b: u8, from: int)
    requires
        0 <= from <= bytes.len(),
    ensures
        from <= position(bytes, b, from) <= bytes.len(),
        position(bytes, b, from) < bytes.len() ==> bytes[position(bytes, b, from)] == b,
    decreases bytes.len() - from,
{
    if from < bytes.len() && bytes[from] != b {
        lemma_position(bytes, b, from + 1);
    }
}

/// Bytes behind others: the first byte `b` of those before is found there; where they have none,
/// it is looked for behind them.
pub proof fn lemma_position_appended(before: Seq<u8>, behind: Seq<u8>, b: u8, from: int)
    requires
        0 <= from <= before.len(),
    ensures
        position(before, b, from) < before.len() ==> position(before + behind, b, from) == position(
            before,
            b,
            from,
        ),
        position(before, b, from) == before.len() ==> position(before + behind, b, from)
            == position(before + behind, b, before.len() as int),
    decreases before.len() - from,
{
    let all = before + behind;
    if from < before.len() {
        assert(all[from] == before[from]);
        if before[from] != b {
            lemma_position_appended(before, behind, b, from + 1);
            lemma_position(before, b, from + 1);
        }
    }
}

/// Bytes behind others are found where they are, that much further on.
pub proof fn lemma_position_shifted(before: Seq<u8>, behind: Seq<u8>, b: u8, from: int)
    requires
        0 <= from <= behind.len(),
    ensures
        position(before + behind, b, before.len() + from) == before.len() + position(
            behind,
            b,
            from,
        ),
    decreases behind.len() - from,
{
    if from < behind.len() {
        assert((before + behind)[before.len() + from] == behind[from]);
        if behind[from] != b {
            lemma_position_shifted(before, behind, b, from + 1);
        }
    }
}

pub fn find(bytes: &[u8], b: u8, from: usize) -> (r: usize)
    requires
        from <= bytes@.len(),
    ensures
        r == position(bytes@, b, from as int),
        from <= r <= bytes@.len(),
{
    let mut i: usize = from;
    while i < bytes.len() && bytes[i] != b
        invariant
            from <= i <= bytes@.len(),
            position(bytes@, b, from as int) == position(bytes@, b, i as int),
        decreases bytes@.len() - i,
    {
        i = i + 1;
    }
    i
}

/// The lowest `count` bytes of `n`, the lowest first.
pub open spec fn little_endian(n: nat, count: nat) -> Seq<u8>
    decreases count,
{
    if count == 0 {
        Seq::empty()
    } else {
        seq![(n % 256) as u8] + little_endian(n / 256, (count - 1) as nat)
    }
}

/// The eight bytes of a whole number with a sign: a negative one counts down from two to the 64.
pub open spec fn signed_bytes(n: int) -> Seq<u8> {
    if n < 0 {
        little_endian((n + 0x1_0000_0000_0000_0000) as nat, 8)
    } else {
        little_endian(n as nat, 8)
    }
}

fn push_little_endian(out: &mut Vec<u8>, n: u128, count: usize)
    ensures
        final(out)@ == old(out)@ + little_endian(n as nat, count as nat),
{
    let ghost start = out@;
    let mut rest: u128 = n;
    let mut left: usize = count;
    assert(start + little_endian(n as nat, count as nat) =~= out@ + little_endian(
        n as nat,
        count as nat,
    ));
    while left > 0
        invariant
            start + little_endian(n as nat, count as nat) == out@ + little_endian(
                rest as nat,
                left as nat,
            ),
        decreases left,
    {
        let ghost before = out@;
        out.push((rest % 256) as u8);
        assert(before + (seq![(rest as nat % 256) as u8] + little_endian(
            rest as nat / 256,
            (left - 1) as nat,
        )) =~= out@ + little_endian(rest as nat / 256, (left - 1) as nat));
        rest = rest / 256;
        left = left - 1;
    }
    assert(out@ + little_endian(rest as nat, 0) =~= out@);
}

pub fn push_signed(out: &mut Vec<u8>, n: i64)
    ensures
        final(out)@ == old(out)@ + signed_bytes(n as int),
{
    let wide: i128 = if n < 0 {
        n as i128 + 0x1_0000_0000_0000_0000
    } else {
        n as i128
    };
    push_little_endian(out, wide as u128, 8);
}

pub fn push_short(out: &mut Vec<u8>, n: u16)
    ensures
        final(out)@ == old(out)@ + little_endian(n as nat, 2),
{
    push_little_endian(out, n as u128, 2);
}

/// Appends the encoding of `s`.
pub fn push_encoded(out: &mut Vec<u8>, s: &str)
    ensures
        final(out)@ == old(out)@ + vstd::utf8::encode_utf8(s@),
{
    let b = s.as_bytes();
    let ghost start = out@;
    let mut i: usize = 0;
    while i < b.len()
        invariant
            i <= b@.len(),
            out@ == start + b@.take(i as int),
        decreases b@.len() - i,
    {
        out.push(b[i]);
        i = i + 1;
        assert(start + b@.take(i as int) =~= (start + b@.take(i - 1)).push(b@[i - 1]));
    }
    assert(b@.take(b@.len() as int) =~= b@);
}

// ---------------------------------------------------------------------------------------------
// Laws of bytes
// ---------------------------------------------------------------------------------------------
/// How many numbers `count` bytes can tell apart.
pub open spec fn byte_limit(count: nat) -> nat
    decreases count,
{
    if count == 0 {
        1
    } else {
        256 * byte_limit((count - 1) as nat)
    }
}

/// Numbers of so many bytes are told apart by their bytes, the lowest of which comes first.
pub proof fn law_bytes_tell_numbers_apart(a: nat, b: nat, count: nat)
    requires
        a < byte_limit(count),
        b < byte_limit(count),
    ensures
        little_endian(a, count).len() == count,
        count > 0 ==> little_endian(a, count)[0] == a % 256,
        little_endian(a, count) == little_endian(b, count) ==> a == b,
    decreases count,
{
    if count > 0 {
        let less = (count - 1) as nat;
        assert(a / 256 < byte_limit(less) && b / 256 < byte_limit(less));
        law_bytes_tell_numbers_apart(a / 256, b / 256, less);
        law_bytes_tell_numbers_apart(b / 256, a / 256, less);
        let x = little_endian(a, count);
        let y = little_endian(b, count);
        if x == y {
            assert(x[0] == y[0]);
            assert(x.skip(1) =~= little_endian(a / 256, less));
            assert(y.skip(1) =~= little_endian(b / 256, less));
        }
    }
}

/// Whole numbers with a sign are told apart by their eight bytes.
pub proof fn law_signed_bytes_tell_numbers_apart(a: int, b: int)
    requires
        i64::MIN <= a <= i64::MAX,
        i64::MIN <= b <= i64::MAX,
    ensures
        signed_bytes(a).len() == 8,
        signed_bytes(a) == signed_bytes(b) ==> a == b,
{
    reveal_with_fuel(byte_limit, 9);
    assert(byte_limit(8) == 0x1_0000_0000_0000_0000);
    let x = if a < 0 {
        (a + 0x1_0000_0000_0000_0000) as nat
    } else {
        a as nat
    };
    let y = if b < 0 {
        (b + 0x1_0000_0000_0000_0000) as nat
    } else {
        b as nat
    };
    law_bytes_tell_numbers_apart(x, y, 8);
}

/// The first byte of its kind is found where it stands behind bytes of other kinds.
pub proof fn law_first_byte_is_found(bytes: Seq<u8>, b: u8, from: int, at: int)
    requires
        0 <= from <= at <= bytes.len(),
        forall|k: int| from <= k < at ==> #[trigger] bytes[k] != b,
        at < bytes.len() ==> bytes[at] == b,
    ensures
        position(bytes, b, from) == at,
    decreases at - from,
{
    if from < at {
        assert(bytes[from] != b);
        law_first_byte_is_found(bytes, b, from + 1, at);
    }
}

} // verus!
