//! Numbers as text.

use vstd::prelude::*;
use vstd::string::*;

verus! {

/// The hexadecimal digit `d`, which is also the decimal digit below ten.
pub open spec fn digit(d: int) -> char {
    seq!['0', '1', '2', '3', '4', '5', '6', '7', '8', '9', 'a', 'b', 'c', 'd', 'e', 'f'][d]
}

/// `n` in decimal.
pub open spec fn decimal(n: nat) -> Seq<char>
    decreases n,
{
    if n < 10 {
        seq![digit(n as int)]
    } else {
        decimal(n / 10).push(digit((n % 10) as int))
    }
}

/// `n` in hexadecimal, padded with zeros to `width` digits.
pub open spec fn hexadecimal(n: nat, width: int) -> Seq<char>
    decreases n, width,
{
    if n < 16 && width <= 1 {
        seq![digit(n as int)]
    } else if n < 16 {
        hexadecimal(0, width - 1).push(digit(n as int))
    } else {
        hexadecimal(n / 16, width - 1).push(digit((n % 16) as int))
    }
}

fn digit_str(d: u8) -> (s: &'static str)
    requires
        d < 16,
    ensures
        s@ == seq![digit(d as int)],
{
    proof {
        reveal_strlit("0");
        reveal_strlit("1");
        reveal_strlit("2");
        reveal_strlit("3");
        reveal_strlit("4");
        reveal_strlit("5");
        reveal_strlit("6");
        reveal_strlit("7");
        reveal_strlit("8");
        reveal_strlit("9");
        reveal_strlit("a");
        reveal_strlit("b");
        reveal_strlit("c");
        reveal_strlit("d");
        reveal_strlit("e");
        reveal_strlit("f");
    }
    match d {
        0 => "0",
        1 => "1",
        2 => "2",
        3 => "3",
        4 => "4",
        5 => "5",
        6 => "6",
        7 => "7",
        8 => "8",
        9 => "9",
        10 => "a",
        11 => "b",
        12 => "c",
        13 => "d",
        14 => "e",
        _ => "f",
    }
}

/// Appends `n` in decimal.
pub fn push_decimal(s: &mut String, n: u64)
    ensures
        final(s)@ == old(s)@ + decimal(n as nat),
    decreases n,
{
    if n >= 10 {
        push_decimal(s, n / 10);
    }
    s.append(digit_str((n % 10) as u8));
    assert(s@ =~= old(s)@ + decimal(n as nat));
}

/// Appends `n` in hexadecimal with at least `width` digits.
pub fn push_hexadecimal(s: &mut String, n: u32, width: u32)
    ensures
        final(s)@ == old(s)@ + hexadecimal(n as nat, width as int),
    decreases n, width,
{
    if n >= 16 {
        push_hexadecimal(s, n / 16, if width == 0 { 0 } else { width - 1 });
        proof {
            lemma_no_padding((n / 16) as nat, width as int - 1);
        }
    } else if width > 1 {
        push_hexadecimal(s, 0, width - 1);
    }
    s.append(digit_str((n % 16) as u8));
    assert(s@ =~= old(s)@ + hexadecimal(n as nat, width as int));
}

proof fn lemma_no_padding(n: nat, width: int)
    ensures
        width <= 0 ==> hexadecimal(n, width) == hexadecimal(n, 0),
    decreases n,
{
    if n >= 16 {
        lemma_no_padding(n / 16, width - 1);
        lemma_no_padding(n / 16, -1);
    }
}

/// The number that decimal digits stand for.
pub open spec fn read_decimal(s: Seq<char>) -> int
    decreases s.len(),
{
    if s.len() == 0 {
        0
    } else {
        10 * read_decimal(s.drop_last()) + (s.last() as u32 - 0x30)
    }
}

/// The number that hexadecimal digits stand for.
pub open spec fn read_hexadecimal(s: Seq<char>) -> int
    decreases s.len(),
{
    if s.len() == 0 {
        0
    } else {
        16 * read_hexadecimal(s.drop_last()) + if s.last() <= '9' {
            s.last() as u32 - 0x30
        } else {
            s.last() as u32 - 0x61 + 10
        }
    }
}

proof fn lemma_digits(d: int)
    requires
        0 <= d < 16,
    ensures
        d < 10 ==> digit(d) as u32 == 0x30 + d && digit(d) <= '9',
        d >= 10 ==> digit(d) as u32 == 0x61 + d - 10 && digit(d) > '9',
{
}

/// A number in decimal reads back, and has no zero in front.
pub proof fn law_decimal_reads_back(n: nat)
    ensures
        read_decimal(decimal(n)) == n,
        decimal(n).len() >= 1,
        decimal(n).len() > 1 ==> decimal(n)[0] != '0',
    decreases n,
{
    reveal_with_fuel(read_decimal, 2);
    lemma_digits((n % 10) as int);
    if n >= 10 {
        law_decimal_reads_back(n / 10);
        assert(decimal(n).drop_last() =~= decimal(n / 10));
        lemma_digits(n as int / 10 % 16);
        if n / 10 < 10 {
            lemma_digits((n / 10) as int);
        }
    } else {
        assert(decimal(n).drop_last() =~= Seq::empty());
    }
}

/// A number in hexadecimal reads back and has at least `width` digits, no more than it
/// needs beyond that.
pub proof fn law_hexadecimal_reads_back(n: nat, width: int)
    ensures
        read_hexadecimal(hexadecimal(n, width)) == n,
        hexadecimal(n, width).len() >= width,
        hexadecimal(n, width).len() >= 1,
        n < 16 && width >= 1 ==> hexadecimal(n, width).len() == width,
    decreases n, width,
{
    reveal_with_fuel(read_hexadecimal, 2);
    lemma_digits((n % 16) as int);
    let s = hexadecimal(n, width);
    if n < 16 && width <= 1 {
        assert(s.drop_last() =~= Seq::empty());
    } else if n < 16 {
        law_hexadecimal_reads_back(0, width - 1);
        assert(s.drop_last() =~= hexadecimal(0, width - 1));
    } else {
        law_hexadecimal_reads_back(n / 16, width - 1);
        assert(s.drop_last() =~= hexadecimal(n / 16, width - 1));
    }
}

} // verus!
