//! Human-readable memory sizes for the diagnostics line.

use vstd::prelude::*;
use vstd::string::*;

verus! {

/// Bytes in a kibibyte.
pub const KIB: u64 = 1024;

/// Bytes in a mebibyte.
pub const MIB: u64 = 1048576;

/// Bytes in a gibibyte.
pub const GIB: u64 = 1073741824;

/// The character that writes the digit `d`.
pub open spec fn digit_char(d: nat) -> char {
    if d == 0 {
        '0'
    } else if d == 1 {
        '1'
    } else if d == 2 {
        '2'
    } else if d == 3 {
        '3'
    } else if d == 4 {
        '4'
    } else if d == 5 {
        '5'
    } else if d == 6 {
        '6'
    } else if d == 7 {
        '7'
    } else if d == 8 {
        '8'
    } else {
        '9'
    }
}

/// The decimal numeral of `n`, most significant digit first, without leading
/// zeros (zero itself is written `0`).
pub open spec fn decimal(n: nat) -> Seq<char>
    decreases n,
{
    if n < 10 {
        seq![digit_char(n)]
    } else {
        decimal(n / 10).push(digit_char(n % 10))
    }
}

/// The text shown for a memory size of `size` bytes.
///
/// A size is written in the largest unit of which it holds more than ten, as a
/// whole number rounded down; a size of at most ten bytes is written as nothing.
pub open spec fn mem_size_text(size: nat) -> Seq<char> {
    if size <= 10 {
        Seq::empty()
    } else if size <= 10 * KIB {
        decimal(size) + " bytes"@
    } else if size <= 10 * MIB {
        decimal(size / (KIB as nat)) + " KB"@
    } else if size <= 10 * GIB {
        decimal(size / (MIB as nat)) + " MB"@
    } else {
        decimal(size / (GIB as nat)) + " GB"@
    }
}

/// The one-character string of the digit `d`.
fn digit_str(d: u64) -> (s: &'static str)
    requires
        d < 10,
    ensures
        s@ == seq![digit_char(d as nat)],
{
    proof {
        reveal_strlit("0");
        reveal_strlit("1");
        reveal_strlit("2");
        reveal_strlit("3");
        reveal_strlit("4");
        reveal_strlit("5");
        reveal_strlit("6");
        reveal_strlit("7");
        reveal_strlit("8");
        reveal_strlit("9");
    }
    let s: &'static str = if d == 0 {
        "0"
    } else if d == 1 {
        "1"
    } else if d == 2 {
        "2"
    } else if d == 3 {
        "3"
    } else if d == 4 {
        "4"
    } else if d == 5 {
        "5"
    } else if d == 6 {
        "6"
    } else if d == 7 {
        "7"
    } else if d == 8 {
        "8"
    } else {
        "9"
    };
    assert(s@ =~= seq![digit_char(d as nat)]);
    s
}

/// Appends the decimal numeral of `n` to `out`.
fn push_decimal(out: &mut String, n: u64)
    ensures
        final(out)@ == old(out)@ + decimal(n as nat),
    decreases n,
{
    if n >= 10 {
        push_decimal(out, n / 10);
    }
    out.append(digit_str(n % 10));
    assert(out@ =~= old(out)@ + decimal(n as nat));
}

/// Writes `count` followed by `unit`.
fn quantity(count: u64, unit: &str) -> (text: String)
    ensures
        text@ == decimal(count as nat) + unit@,
{
    let mut text = String::new();
    push_decimal(&mut text, count);
    text.append(unit);
    text
}

/// Formats a memory size for display: `"{n} bytes"`, `"{n} KB"`, `"{n} MB"` or
/// `"{n} GB"`, choosing the largest unit of which `size` holds more than ten,
/// and the empty string for ten bytes or fewer.
pub fn format_mem_size(size: usize) -> (text: String)
    ensures
        text@ == mem_size_text(size as nat),
{
    let size: u64 = size as u64;
    if size <= 10 {
        String::new()
    } else if size <= 10 * KIB {
        quantity(size, " bytes")
    } else if size <= 10 * MIB {
        quantity(size / KIB, " KB")
    } else if size <= 10 * GIB {
        quantity(size / MIB, " MB")
    } else {
        quantity(size / GIB, " GB")
    }
}

} // verus!
