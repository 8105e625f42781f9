//! Building text: characters, decimal numbers and padding.

use vstd::prelude::*;
use vstd::string::StringExecFns;

verus! {

/// The character of one decimal digit.
pub open spec fn digit(d: nat) -> char {
    (0x30 + d) as char
}

/// The decimal numeral of `n`, without sign or leading zeros.
pub open spec fn decimal(n: nat) -> Seq<char>
    decreases n,
{
    if n < 10 {
        seq![digit(n)]
    } else {
        decimal(n / 10).push(digit(n % 10))
    }
}

/// `n` spaces.
pub open spec fn spaces(n: nat) -> Seq<char> {
    Seq::new(n, |i: int| ' ')
}

/// `text` with spaces behind it up to `width` characters; `text` itself
/// where it is that long already.
pub open spec fn padded(text: Seq<char>, width: nat) -> Seq<char> {
    if text.len() < width {
        text + spaces((width - text.len()) as nat)
    } else {
        text
    }
}

/// `String::push` of the standard library: puts one character at the end
/// of the string and leaves the rest of it as it was.
#[verifier::external_body]
pub(crate) fn push_char(out: &mut String, c: char)
    ensures
        final(out)@ == old(out)@.push(c),
{
    out.push(c);
}

/// Puts the decimal numeral of `n` at the end of `out` and returns its
/// length.
pub fn push_decimal(out: &mut String, n: u64) -> (len: usize)
    ensures
        final(out)@ == old(out)@ + decimal(n as nat),
        len == decimal(n as nat).len(),
        1 <= len <= 20,
    decreases n,
{
    let mut len: usize = 0;
    if n >= 10 {
        len = push_decimal(out, n / 10);
        assert(len < 20) by {
            lemma_decimal_len(n as nat);
        }
    }
    let d = (n % 10) as u8;
    push_char(out, (0x30 + d) as char);
    len + 1
}

/// A numeral has at least one digit, and at most twenty where the number
/// fits in 64 bits.
pub proof fn lemma_decimal_len(n: nat)
    ensures
        decimal(n).len() >= 1,
        n <= u64::MAX ==> decimal(n).len() <= 20,
{
    assert(is_power_of_ten(100000000000000000000, 20)) by {
        reveal_with_fuel(is_power_of_ten, 21);
    }
    lemma_decimal_len_below(n, 20, 100000000000000000000);
}

/// A number below ten to the `k` has at most `k` digits.
proof fn lemma_decimal_len_below(n: nat, k: nat, bound: nat)
    requires
        k >= 1,
        is_power_of_ten(bound, k),
    ensures
        decimal(n).len() >= 1,
        n < bound ==> decimal(n).len() <= k,
    decreases n,
{
    if n >= 10 {
        if k > 1 {
            lemma_decimal_len_below(n / 10, (k - 1) as nat, bound / 10);
        } else {
            lemma_decimal_len_below(n / 10, 1, 10);
        }
    }
}

/// `bound` is ten to the `k`.
spec fn is_power_of_ten(bound: nat, k: nat) -> bool
    decreases k,
{
    if k == 0 {
        bound == 1
    } else {
        bound % 10 == 0 && is_power_of_ten(bound / 10, (k - 1) as nat)
    }
}

/// Puts `count` spaces at the end of `out`.
pub fn push_spaces(out: &mut String, count: usize)
    ensures
        final(out)@ == old(out)@ + spaces(count as nat),
{
    let mut i: usize = 0;
    while i < count
        invariant
            i <= count,
            out@ == old(out)@ + spaces(i as nat),
        decreases count - i,
    {
        push_char(out, ' ');
        i = i + 1;
    }
}

/// Puts the decimal numeral of `n` at the end of `out`, with spaces behind
/// it where it is shorter than `width`.
pub fn push_decimal_padded(out: &mut String, n: u64, width: usize)
    ensures
        final(out)@ == old(out)@ + padded(decimal(n as nat), width as nat),
{
    let len = push_decimal(out, n);
    if len < width {
        push_spaces(out, width - len);
    }
}

} // verus!
