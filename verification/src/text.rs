//! Plain-text rendering of integers.

use vstd::prelude::*;
use vstd::string::*;

verus! {

/// The character of a decimal or lower-case hexadecimal digit.
pub open spec fn digit_char(d: nat) -> char
    recommends
        d < 16,
{
    seq!['0', '1', '2', '3', '4', '5', '6', '7', '8', '9', 'a', 'b', 'c', 'd', 'e', 'f'][d as int]
}

/// `n` in positional notation, without leading zeros.
pub open spec fn in_base(n: nat, base: nat) -> Seq<char>
    recommends
        2 <= base <= 16,
    decreases n,
{
    if base < 2 || n < base {
        seq![digit_char(n)]
    } else {
        proof {
            assert(n / base < n) by (nonlinear_arith)
                requires
                    base >= 2,
                    n >= base,
            ;
        }
        in_base(n / base, base).push(digit_char(n % base))
    }
}

/// `n` in decimal, without leading zeros.
pub open spec fn decimal(n: nat) -> Seq<char> {
    in_base(n, 10)
}

/// `n` in lower-case hexadecimal, without leading zeros.
pub open spec fn hexadecimal(n: nat) -> Seq<char> {
    in_base(n, 16)
}

/// An integer in decimal, with a leading minus when it is negative.
pub open spec fn signed_decimal(n: int) -> Seq<char> {
    if n < 0 {
        seq!['-'] + decimal((-n) as nat)
    } else {
        decimal(n as nat)
    }
}

/// The last `width` decimal digits of `n`, zeros included.
pub open spec fn fixed_width(n: nat, width: nat) -> Seq<char>
    decreases width,
{
    if width == 0 {
        Seq::empty()
    } else {
        fixed_width(n / 10, (width - 1) as nat).push(digit_char(n % 10))
    }
}

/// The one-character text of a digit.
fn digit(d: u128) -> (r: &'static str)
    requires
        d < 16,
    ensures
        r@ == seq![digit_char(d as nat)],
{
    proof {
        reveal_strlit("0");
        reveal_strlit("1");
        reveal_strlit("2");
        reveal_strlit("3");
        reveal_strlit("4");
        reveal_strlit("5");
        reveal_strlit("6");
        reveal_strlit("7");
        reveal_strlit("8");
        reveal_strlit("9");
        reveal_strlit("a");
        reveal_strlit("b");
        reveal_strlit("c");
        reveal_strlit("d");
        reveal_strlit("e");
        reveal_strlit("f");
    }
    match d {
        0 => "0",
        1 => "1",
        2 => "2",
        3 => "3",
        4 => "4",
        5 => "5",
        6 => "6",
        7 => "7",
        8 => "8",
        9 => "9",
        10 => "a",
        11 => "b",
        12 => "c",
        13 => "d",
        14 => "e",
        _ => "f",
    }
}

/// Appends `n` in the given base.
fn push_in_base(out: &mut String, n: u128, base: u128)
    requires
        2 <= base <= 16,
    ensures
        final(out)@ == old(out)@ + in_base(n as nat, base as nat),
    decreases n,
{
    if n < base {
        out.append(digit(n));
    } else {
        assert(n / base < n) by (nonlinear_arith)
            requires
                base >= 2,
                n >= base,
        ;
        push_in_base(out, n / base, base);
        out.append(digit(n % base));
        assert(out@ =~= old(out)@ + in_base(n as nat, base as nat));
    }
}

/// Appends `n` in decimal.
pub fn push_decimal(out: &mut String, n: u128)
    ensures
        final(out)@ == old(out)@ + decimal(n as nat),
{
    push_in_base(out, n, 10);
}

/// Appends `n` in lower-case hexadecimal.
pub fn push_hexadecimal(out: &mut String, n: u128)
    ensures
        final(out)@ == old(out)@ + hexadecimal(n as nat),
{
    push_in_base(out, n, 16);
}

/// Appends the last `width` decimal digits of `n`.
pub fn push_fixed_width(out: &mut String, n: u128, width: u32)
    ensures
        final(out)@ == old(out)@ + fixed_width(n as nat, width as nat),
    decreases width,
{
    if width > 0 {
        push_fixed_width(out, n / 10, width - 1);
        out.append(digit(n % 10));
    }
    assert(out@ =~= old(out)@ + fixed_width(n as nat, width as nat));
}

/// Appends a signed number in decimal.
pub fn push_signed_decimal(out: &mut String, n: i64)
    ensures
        final(out)@ == old(out)@ + signed_decimal(n as int),
{
    if n < 0 {
        proof {
            reveal_strlit("-");
        }
        out.append("-");
        let magnitude: u128 = (-(n as i128)) as u128;
        push_decimal(out, magnitude);
        assert(out@ =~= old(out)@ + signed_decimal(n as int));
    } else {
        push_decimal(out, n as u128);
    }
}

/// A number in positional notation is made of digits.
proof fn lemma_digits(n: nat, base: nat)
    requires
        2 <= base <= 16,
    ensures
        in_base(n, base).len() > 0,
        forall|i: int| 0 <= i < in_base(n, base).len() ==> '0' <= #[trigger] in_base(n, base)[i] <= 'f',
    decreases n,
{
    if n >= base {
        assert(n / base < n) by (nonlinear_arith)
            requires
                base >= 2,
                n >= base,
        ;
        lemma_digits(n / base, base);
    }
}

/// Decimal numbers are made of printable characters.
pub proof fn lemma_decimal_chars(n: nat)
    ensures
        decimal(n).len() > 0,
        forall|i: int| 0 <= i < decimal(n).len() ==> '0' <= #[trigger] decimal(n)[i] <= 'f',
{
    lemma_digits(n, 10);
}

/// Hexadecimal numbers are made of printable characters.
pub proof fn lemma_hexadecimal_chars(n: nat)
    ensures
        hexadecimal(n).len() > 0,
        forall|i: int| 0 <= i < hexadecimal(n).len() ==> '0' <= #[trigger] hexadecimal(n)[i] <= 'f',
{
    lemma_digits(n, 16);
}

/// The value of a decimal or lower-case hexadecimal digit.
pub open spec fn digit_value(c: char) -> int {
    if '0' <= c <= '9' {
        c as int - '0' as int
    } else {
        c as int - 'a' as int + 10
    }
}

/// The number that a sequence of digits stands for.
pub open spec fn read_in_base(s: Seq<char>, base: int) -> int
    decreases s.len(),
{
    if s.len() == 0 {
        0
    } else {
        read_in_base(s.drop_last(), base) * base + digit_value(s.last())
    }
}

proof fn lemma_digit_value(d: nat)
    requires
        d < 16,
    ensures
        digit_value(digit_char(d)) == d,
        d < 10 ==> '0' <= digit_char(d) <= '9',
        digit_char(d) == '0' <==> d == 0,
{
}

proof fn lemma_reads_back(n: nat, base: nat)
    requires
        2 <= base <= 16,
    ensures
        read_in_base(in_base(n, base), base as int) == n,
        in_base(n, base).len() > 0,
        in_base(n, base)[0] == '0' ==> n == 0 && in_base(n, base).len() == 1,
        base <= 10 ==> forall|i: int| 0 <= i < in_base(n, base).len() ==> '0' <= #[trigger] in_base(n, base)[i] <= '9',
    decreases n,
{
    let s = in_base(n, base);
    if n < base {
        lemma_digit_value(n);
        assert(s.drop_last() =~= Seq::empty());
        assert(read_in_base(s.drop_last(), base as int) * base == 0) by (nonlinear_arith)
            requires
                read_in_base(s.drop_last(), base as int) == 0,
        ;
    } else {
        assert(n / base < n && n / base > 0) by (nonlinear_arith)
            requires
                base >= 2,
                n >= base,
        ;
        lemma_reads_back(n / base, base);
        lemma_digit_value(n % base);
        assert(s.drop_last() =~= in_base(n / base, base));
        vstd::arithmetic::div_mod::lemma_fundamental_div_mod(n as int, base as int);
        let q = n / base;
        assert(q * base == base * q) by (nonlinear_arith);
        assert(s[0] == in_base(q, base)[0]);
    }
}

/// A number can be read back from its decimal digits, which start with a zero only where that is all.
pub proof fn lemma_decimal_reads_back(n: nat)
    ensures
        read_in_base(decimal(n), 10) == n,
        decimal(n).len() > 0,
        decimal(n)[0] == '0' ==> decimal(n).len() == 1,
        forall|i: int| 0 <= i < decimal(n).len() ==> '0' <= #[trigger] decimal(n)[i] <= '9',
{
    lemma_reads_back(n, 10);
}

/// A number can be read back from its hexadecimal digits, which start with a zero only where that is all.
pub proof fn lemma_hexadecimal_reads_back(n: nat)
    ensures
        read_in_base(hexadecimal(n), 16) == n,
        hexadecimal(n).len() > 0,
        hexadecimal(n)[0] == '0' ==> hexadecimal(n).len() == 1,
{
    lemma_reads_back(n, 16);
}

/// A signed number can be read back: a minus stands before the digits of exactly the negative ones.
pub proof fn lemma_signed_reads_back(n: int)
    ensures
        n < 0 <==> signed_decimal(n)[0] == '-',
        n < 0 ==> read_in_base(signed_decimal(n).skip(1), 10) == -n,
        n >= 0 ==> read_in_base(signed_decimal(n), 10) == n,
{
    if n < 0 {
        lemma_decimal_reads_back((-n) as nat);
        assert(signed_decimal(n).skip(1) =~= decimal((-n) as nat));
    } else {
        lemma_decimal_reads_back(n as nat);
        assert('0' <= decimal(n as nat)[0]);
    }
}

/// A number that fits can be read back from its digits of a fixed width.
pub proof fn lemma_fixed_width_reads_back(n: nat, width: nat)
    ensures
        fixed_width(n, width).len() == width,
        n < crate::float::pow10(width) ==> read_in_base(fixed_width(n, width), 10) == n,
        forall|i: int| 0 <= i < width ==> '0' <= #[trigger] fixed_width(n, width)[i] <= '9',
    decreases width,
{
    if width > 0 {
        let s = fixed_width(n, width);
        lemma_fixed_width_reads_back(n / 10, (width - 1) as nat);
        lemma_digit_value(n % 10);
        assert(s.drop_last() =~= fixed_width(n / 10, (width - 1) as nat));
    }
}

} // verus!
