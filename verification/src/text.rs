//! Decimal numbers as ASCII text.

use vstd::prelude::*;
use vstd::string::StringExecFns;

verus! {

/// The decimal digits of `n`, without leading zeros.
pub open spec fn digits(n: nat) -> Seq<u8>
    decreases n,
{
    if n < 10 {
        seq![(48 + n) as u8]
    } else {
        digits(n / 10).push((48 + n % 10) as u8)
    }
}

/// Whether every byte is a decimal digit.
pub open spec fn all_digits(text: Seq<u8>) -> bool {
    forall|i: int| 0 <= i < text.len() ==> 48 <= #[trigger] text[i] <= 57
}

/// The number that a sequence of decimal digits writes.
pub open spec fn value(text: Seq<u8>) -> nat
    decreases text.len(),
{
    if text.len() == 0 {
        0
    } else {
        (value(text.drop_last()) * 10 + (text.last() - 48)) as nat
    }
}

/// `text` without a leading plus sign.
pub open spec fn unsigned(text: Seq<u8>) -> Seq<u8> {
    if text.len() > 0 && text[0] == 43 {
        text.skip(1)
    } else {
        text
    }
}

/// The number that `text` writes: decimal digits, after an optional plus sign,
/// of a number that fits in 64 bits.
pub open spec fn parsed(text: Seq<u8>) -> Option<u64> {
    let number = unsigned(text);
    if number.len() > 0 && all_digits(number) && value(number) <= u64::MAX {
        Some(value(number) as u64)
    } else {
        None
    }
}

/// Writing a number and reading it back gives the number.
pub proof fn digits_read_back(n: u64)
    ensures
        parsed(digits(n as nat)) == Some(n),
{
    lemma_digits(n as nat);
    let text = digits(n as nat);
    assert(48 <= text[0] <= 57);
}

/// The digits of a number are digits, at least one, and write it.
pub proof fn lemma_digits(n: nat)
    ensures
        digits(n).len() > 0,
        all_digits(digits(n)),
        value(digits(n)) == n,
    decreases n,
{
    if n < 10 {
        assert(digits(n).drop_last() =~= Seq::empty());
        assert(value(digits(n).drop_last()) == 0);
    } else {
        lemma_digits(n / 10);
        assert(digits(n).drop_last() =~= digits(n / 10));
    }
}

/// Shortening a number's text does not make the number larger.
proof fn lemma_value_prefix(text: Seq<u8>, end: int)
    requires
        all_digits(text),
        0 <= end <= text.len(),
    ensures
        value(text.take(end)) <= value(text),
    decreases text.len() - end,
{
    if end < text.len() {
        lemma_value_prefix(text, end + 1);
        assert(text.take(end + 1).drop_last() =~= text.take(end));
    } else {
        assert(text.take(end) =~= text);
    }
}

/// Appends the decimal digits of `n`.
pub fn push_decimal(buffer: &mut Vec<u8>, n: u64)
    ensures
        final(buffer)@ == old(buffer)@ + digits(n as nat),
    decreases n,
{
    let ghost before = buffer@;
    if n < 10 {
        buffer.push(48 + n as u8);
    } else {
        push_decimal(buffer, n / 10);
        buffer.push(48 + (n % 10) as u8);
    }
    assert(buffer@ =~= before + digits(n as nat));
}

/// Reads a number: decimal digits after an optional plus sign.
pub fn parse_decimal(text: &[u8]) -> (number: Option<u64>)
    ensures
        number == parsed(text@),
{
    let start: usize = if text.len() > 0 && text[0] == 43 {
        1
    } else {
        0
    };
    let ghost written = unsigned(text@);
    assert(written =~= text@.skip(start as int));
    if start == text.len() {
        return None;
    }
    let mut total: u64 = 0;
    let mut i: usize = start;
    assert(written.take(0) =~= Seq::empty());
    while i < text.len()
        invariant
            start <= i <= text@.len(),
            start < text@.len(),
            written == unsigned(text@),
            written == text@.skip(start as int),
            total == value(written.take(i - start)),
            forall|j: int| 0 <= j < i - start ==> 48 <= #[trigger] written[j] <= 57,
        decreases text.len() - i,
    {
        let byte: u8 = text[i];
        assert(written[i - start] == byte);
        if byte < 48 || byte > 57 {
            assert(!all_digits(written));
            return None;
        }
        let digit: u64 = (byte - 48) as u64;
        proof {
            assert(written.take(i - start + 1).drop_last() =~= written.take(i - start));
            if all_digits(written) {
                lemma_value_prefix(written, i - start + 1);
            }
        }
        if total > u64::MAX / 10 || (total == u64::MAX / 10 && digit > u64::MAX % 10) {
            return None;
        }
        total = total * 10 + digit;
        i += 1;
    }
    assert(written.take(i - start) =~= written);
    Some(total)
}

/// The characters of ASCII text.
pub open spec fn characters(text: Seq<u8>) -> Seq<char> {
    text.map_values(|byte: u8| byte as char)
}

fn digit_text(digit: u64) -> (text: &'static str)
    requires
        digit < 10,
    ensures
        text@ == characters(seq![(48 + digit) as u8]),
{
    proof {
        reveal_strlit("0");
        reveal_strlit("1");
        reveal_strlit("2");
        reveal_strlit("3");
        reveal_strlit("4");
        reveal_strlit("5");
        reveal_strlit("6");
        reveal_strlit("7");
        reveal_strlit("8");
        reveal_strlit("9");
    }
    let text = match digit {
        0 => "0",
        1 => "1",
        2 => "2",
        3 => "3",
        4 => "4",
        5 => "5",
        6 => "6",
        7 => "7",
        8 => "8",
        _ => "9",
    };
    assert(text@ =~= characters(seq![(48 + digit) as u8]));
    text
}

/// Appends the decimal digits of `n` to a string.
pub fn append_decimal(text: &mut String, n: u64)
    ensures
        final(text)@ == old(text)@ + characters(digits(n as nat)),
    decreases n,
{
    let ghost before = text@;
    if n >= 10 {
        append_decimal(text, n / 10);
    }
    text.append(digit_text(n % 10));
    assert(text@ =~= before + characters(digits(n as nat)));
}

/// Where the first `byte` stands at or after `from`, or the end.
pub open spec fn find_from(bytes: Seq<u8>, byte: u8, from: int) -> int
    decreases bytes.len() - from,
{
    if from >= bytes.len() || bytes[from] == byte {
        from
    } else {
        find_from(bytes, byte, from + 1)
    }
}

/// A search ends at or before the end, and finds nothing earlier.
pub proof fn lemma_find_from(bytes: Seq<u8>, byte: u8, from: int)
    requires
        0 <= from <= bytes.len(),
    ensures
        from <= find_from(bytes, byte, from) <= bytes.len(),
        find_from(bytes, byte, from) < bytes.len() ==> bytes[find_from(bytes, byte, from)] == byte,
        forall|i: int|
            from <= i < find_from(bytes, byte, from) ==> (#[trigger] bytes[i]) != byte,
    decreases bytes.len() - from,
{
    if from < bytes.len() && bytes[from] != byte {
        lemma_find_from(bytes, byte, from + 1);
    }
}

/// A search stops at the first occurrence.
pub proof fn lemma_find_at(bytes: Seq<u8>, byte: u8, from: int, at: int)
    requires
        0 <= from <= at <= bytes.len(),
        at < bytes.len() ==> bytes[at] == byte,
        forall|i: int| from <= i < at ==> (#[trigger] bytes[i]) != byte,
    ensures
        find_from(bytes, byte, from) == at,
    decreases at - from,
{
    if from < at {
        lemma_find_at(bytes, byte, from + 1, at);
    }
}

/// Where the first `byte` stands at or after `from`, or the end.
pub fn find_byte(bytes: &[u8], byte: u8, from: usize) -> (at: usize)
    requires
        from <= bytes@.len(),
    ensures
        at == find_from(bytes@, byte, from as int),
        from <= at <= bytes@.len(),
{
    let mut at: usize = from;
    while at < bytes.len() && bytes[at] != byte
        invariant
            from <= at <= bytes@.len(),
            find_from(bytes@, byte, from as int) == find_from(bytes@, byte, at as int),
        decreases bytes.len() - at,
    {
        at += 1;
    }
    at
}

/// The bytes of ASCII text.
pub open spec fn ascii(chars: Seq<char>) -> Seq<u8> {
    chars.map_values(|c: char| c as u8)
}

/// The bytes of an ASCII string.
pub fn ascii_bytes(text: &str) -> (bytes: &[u8])
    requires
        vstd::string::is_ascii(text),
    ensures
        bytes@ == ascii(text@),
{
    let bytes = text.as_bytes();
    proof {
        vstd::string::is_ascii_spec_bytes(text);
        assert(bytes@ =~= ascii(text@));
    }
    bytes
}

} // verus!
