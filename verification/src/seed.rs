//! Reading a seed: the decimal text of an unsigned 64-bit integer.
use vstd::prelude::*;
use vstd::string::StringSliceAdditionalSpecFns;
use vstd::string::StringExecFns;
use crate::error::FortuneError;

verus! {

/// True of the ten decimal digits.
pub open spec fn is_digit(c: char) -> bool {
    '0' <= c && c <= '9'
}

/// The number that a run of decimal digits writes, the most significant first.
pub open spec fn digits_value(digits: Seq<char>) -> nat
    decreases digits.len(),
{
    if digits.len() == 0 {
        0
    } else {
        (digits_value(digits.drop_last()) * 10 + (digits.last() as nat - '0' as nat)) as nat
    }
}

/// The text without the plus sign that may lead it.
pub open spec fn unsigned_part(text: Seq<char>) -> Seq<char> {
    if text.len() > 0 && text[0] == '+' {
        text.drop_first()
    } else {
        text
    }
}

/// A seed is written as an optional plus sign and then at least one decimal
/// digit, nothing else, and its value fits in 64 bits.
pub open spec fn is_seed_text(text: Seq<char>) -> bool {
    let digits = unsigned_part(text);
    &&& digits.len() > 0
    &&& forall|i: int| 0 <= i < digits.len() ==> is_digit(#[trigger] digits[i])
    &&& digits_value(digits) <= u64::MAX
}

/// The seed that `text` writes.
pub open spec fn seed_value(text: Seq<char>) -> nat {
    digits_value(unsigned_part(text))
}

/// A run of digits is worth at least as much as any of its beginnings.
proof fn lemma_prefix_value(digits: Seq<char>, k: int)
    requires
        0 <= k <= digits.len(),
        forall|i: int| 0 <= i < digits.len() ==> is_digit(#[trigger] digits[i]),
    ensures
        digits_value(digits.subrange(0, k)) <= digits_value(digits),
    decreases digits.len() - k,
{
    if k == digits.len() {
        assert(digits.subrange(0, k) == digits);
    } else {
        let longer = digits.subrange(0, k + 1);
        assert(longer.drop_last() == digits.subrange(0, k));
        assert(is_digit(digits[k]));
        assert(longer.last() == digits[k]);
        lemma_prefix_value(digits, k + 1);
    }
}

fn invalid_seed(val: &str) -> (e: FortuneError)
    ensures
        e matches FortuneError::InvalidSeed { value } && value@ == val@,
{
    FortuneError::InvalidSeed { value: String::from_str(val) }
}

/// Reads `val` as a seed. Anything but a plus sign and decimal digits, an
/// empty run of digits, or a value beyond 64 bits is refused, and the error
/// carries `val` as it was given.
pub fn parse_u64_core(val: &str) -> (r: Result<u64, FortuneError>)
    ensures
        match r {
            Ok(n) => is_seed_text(val@) && n == seed_value(val@),
            Err(e) => !is_seed_text(val@) && (e matches FortuneError::InvalidSeed { value }
                && value@ == val@),
        },
{
    broadcast use vstd::string::is_ascii_spec_bytes;

    let ghost digits = unsigned_part(val@);
    if !val.is_ascii() {
        proof {
            let bad = choose|i: int|
                0 <= i < val@.len() && !('\0' <= #[trigger] val@[i] && val@[i] <= '\u{7f}');
            if val@[0] == '+' {
                assert(digits[bad - 1] == val@[bad]);
            } else {
                assert(digits[bad] == val@[bad]);
            }
        }
        return Err(invalid_seed(val));
    }
    let bytes = val.as_bytes();
    let len: usize = bytes.len();
    proof {
        vstd::string::is_ascii_spec_bytes(val);
    }
    assert(len == val@.len());
    let start: usize = if len > 0 && bytes[0] == 43u8 { 1 } else { 0 };
    assert(digits == val@.subrange(start as int, len as int));
    if start == len {
        return Err(invalid_seed(val));
    }
    let mut value: u64 = 0;
    let mut i: usize = start;
    while i < len
        invariant
            start <= i <= len,
            len == val@.len(),
            vstd::string::is_ascii(val),
            bytes@ == val.spec_bytes(),
            digits == unsigned_part(val@),
            digits == val@.subrange(start as int, len as int),
            forall|j: int| 0 <= j < i - start ==> is_digit(#[trigger] digits[j]),
            value == digits_value(digits.subrange(0, i - start)),
        decreases len - i,
    {
        let b: u8 = bytes[i];
        let ghost c = val@[i as int];
        assert(digits[i - start] == c);
        assert('\0' <= c && c <= '\u{7f}');
        assert(c as u8 == b);
        assert(is_digit(c) <==> 48u8 <= b && b <= 57u8);
        if b < 48u8 || b > 57u8 {
            return Err(invalid_seed(val));
        }
        let d: u64 = (b - 48u8) as u64;
        let ghost longer = digits.subrange(0, i - start + 1);
        assert(longer.drop_last() == digits.subrange(0, i - start));
        assert(longer.last() == digits[i - start]);
        assert(digits_value(longer) == value * 10 + d);
        if value > (u64::MAX - d) / 10 {
            proof {
                if is_seed_text(val@) {
                    lemma_prefix_value(digits, i - start + 1);
                }
            }
            return Err(invalid_seed(val));
        }
        value = value * 10 + d;
        i = i + 1;
    }
    assert(digits.subrange(0, len - start) == digits);
    Ok(value)
}

/// Reads the text of a seed as `parse_u64_core` does.
pub fn parse_u64(val: &String) -> (r: Result<u64, FortuneError>)
    ensures
        match r {
            Ok(n) => is_seed_text(val@) && n == seed_value(val@),
            Err(e) => !is_seed_text(val@) && (e matches FortuneError::InvalidSeed { value }
                && value@ == val@),
        },
{
    parse_u64_core(val.as_str())
}

} // verus!
