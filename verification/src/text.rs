//! Rendering of numbers and identity bytes into the human-readable result
//! messages: decimal digits for amounts, lowercase hex digits for identities.

use vstd::prelude::*;
use vstd::string::StringExecFns;

verus! {

/// The decimal digit character for `d` (meaningful for 0 <= d <= 9).
pub open spec fn digit_seq(d: int) -> Seq<char> {
    if d == 0 {
        "0"@
    } else if d == 1 {
        "1"@
    } else if d == 2 {
        "2"@
    } else if d == 3 {
        "3"@
    } else if d == 4 {
        "4"@
    } else if d == 5 {
        "5"@
    } else if d == 6 {
        "6"@
    } else if d == 7 {
        "7"@
    } else if d == 8 {
        "8"@
    } else {
        "9"@
    }
}

/// The decimal rendering of `n`, most significant digit first.
pub open spec fn dec_digits(n: u64) -> Seq<char>
    decreases n,
{
    if n < 10 {
        digit_seq(n as int)
    } else {
        dec_digits(n / 10) + digit_seq((n % 10) as int)
    }
}

/// The hex digit character for `d` (meaningful for 0 <= d <= 15).
pub open spec fn nibble_seq(d: int) -> Seq<char> {
    if d < 10 {
        digit_seq(d)
    } else if d == 10 {
        "a"@
    } else if d == 11 {
        "b"@
    } else if d == 12 {
        "c"@
    } else if d == 13 {
        "d"@
    } else if d == 14 {
        "e"@
    } else {
        "f"@
    }
}

/// The two hex digit characters of one byte, high nibble first.
pub open spec fn hex_pair(b: u8) -> Seq<char> {
    nibble_seq((b / 16) as int) + nibble_seq((b % 16) as int)
}

/// The lowercase hex rendering of a byte string.
pub open spec fn hex_digits(bytes: Seq<u8>) -> Seq<char>
    decreases bytes.len(),
{
    if bytes.len() == 0 {
        Seq::<char>::empty()
    } else {
        hex_pair(bytes[0]) + hex_digits(bytes.drop_first())
    }
}

fn append_digit(s: &mut String, d: u64)
    requires
        d < 10,
    ensures
        final (s)@ == old(s)@ + digit_seq(d as int),
{
    if d == 0 {
        s.append("0");
    } else if d == 1 {
        s.append("1");
    } else if d == 2 {
        s.append("2");
    } else if d == 3 {
        s.append("3");
    } else if d == 4 {
        s.append("4");
    } else if d == 5 {
        s.append("5");
    } else if d == 6 {
        s.append("6");
    } else if d == 7 {
        s.append("7");
    } else if d == 8 {
        s.append("8");
    } else {
        s.append("9");
    }
}

/// Appends the decimal rendering of `n` to `s`.
pub fn append_decimal(s: &mut String, n: u64)
    ensures
        final (s)@ == old(s)@ + dec_digits(n),
    decreases n,
{
    if n < 10 {
        append_digit(s, n);
    } else {
        append_decimal(s, n / 10);
        append_digit(s, n % 10);
        assert(final (s)@ =~= old(s)@ + dec_digits(n));
    }
}

fn append_nibble(s: &mut String, d: u8)
    requires
        d < 16,
    ensures
        final (s)@ == old(s)@ + nibble_seq(d as int),
{
    if d < 10 {
        append_digit(s, d as u64);
    } else if d == 10 {
        s.append("a");
    } else if d == 11 {
        s.append("b");
    } else if d == 12 {
        s.append("c");
    } else if d == 13 {
        s.append("d");
    } else if d == 14 {
        s.append("e");
    } else {
        s.append("f");
    }
}

fn append_hex_from(s: &mut String, bytes: &Vec<u8>, i: usize)
    requires
        i <= bytes@.len(),
    ensures
        final (s)@ == old(s)@ + hex_digits(bytes@.skip(i as int)),
    decreases bytes@.len() - i,
{
    if i < bytes.len() {
        let b = bytes[i];
        append_nibble(s, b / 16);
        append_nibble(s, b % 16);
        append_hex_from(s, bytes, i + 1);
        proof {
            let rest = bytes@.skip(i as int);
            assert(rest[0] == bytes@[i as int]);
            assert(rest.drop_first() =~= bytes@.skip(i as int + 1));
            assert(final (s)@ =~= old(s)@ + hex_digits(rest));
        }
    } else {
        assert(bytes@.skip(i as int) =~= Seq::<u8>::empty());
    }
}

/// Appends the hex rendering of `bytes` to `s`.
pub fn append_hex(s: &mut String, bytes: &Vec<u8>)
    ensures
        final (s)@ == old(s)@ + hex_digits(bytes@),
{
    append_hex_from(s, bytes, 0);
    assert(bytes@.skip(0) =~= bytes@);
}

} // verus!
