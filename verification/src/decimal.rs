//! Decimal notation of integers.

use vstd::prelude::*;
use vstd::string::StringExecFns;

verus! {

/// The character of a decimal digit.
pub open spec fn digit(d: nat) -> char {
    (48 + d) as char
}

/// The decimal notation of a natural number, without leading zeros.
pub open spec fn natural(n: nat) -> Seq<char>
    decreases n,
{
    if n < 10 {
        seq![digit(n)]
    } else {
        natural(n / 10).push(digit(n % 10))
    }
}

/// The decimal notation of an integer, with a minus sign where it is negative.
pub open spec fn integer(n: int) -> Seq<char> {
    if n < 0 {
        seq!['-'] + natural((-n) as nat)
    } else {
        natural(n as nat)
    }
}

fn digit_text(d: u128) -> (text: &'static str)
    requires
        d < 10,
    ensures
        text@ == seq![digit(d as nat)],
{
    proof {
        reveal_strlit("0");
        reveal_strlit("1");
        reveal_strlit("2");
        reveal_strlit("3");
        reveal_strlit("4");
        reveal_strlit("5");
        reveal_strlit("6");
        reveal_strlit("7");
        reveal_strlit("8");
        reveal_strlit("9");
    }
    let text: &'static str = match d {
        0 => "0",
        1 => "1",
        2 => "2",
        3 => "3",
        4 => "4",
        5 => "5",
        6 => "6",
        7 => "7",
        8 => "8",
        _ => "9",
    };
    assert(text@ =~= seq![digit(d as nat)]);
    text
}

/// Appends the decimal notation of `n`.
pub fn push_natural(text: &mut String, n: u128)
    ensures
        final(text)@ == old(text)@ + natural(n as nat),
    decreases n,
{
    if n >= 10 {
        push_natural(text, n / 10);
    }
    text.append(digit_text(n % 10));
    assert(text@ =~= old(text)@ + natural(n as nat));
}

/// Appends the decimal notation of `n`, with a minus sign where it is negative.
pub fn push_integer(text: &mut String, n: i32)
    ensures
        final(text)@ == old(text)@ + integer(n as int),
{
    if n < 0 {
        proof {
            reveal_strlit("-");
            assert("-"@ =~= seq!['-']);
        }
        text.append("-");
        push_natural(text, (-(n as i64)) as u128);
        assert(text@ =~= old(text)@ + integer(n as int));
    } else {
        push_natural(text, n as u128);
    }
}

/// The number that decimal digits denote.
pub open spec fn value(text: Seq<char>) -> int
    decreases text.len(),
{
    if text.len() == 0 {
        0
    } else {
        10 * value(text.drop_last()) + (text.last() as int - 48)
    }
}

/// The notation of a number denotes it, in decimal digits alone, and begins with a zero
/// only where it is nothing else.
pub proof fn notations_denote_their_number(n: nat)
    ensures
        value(natural(n)) == n,
        natural(n).len() > 0,
        forall|i: int| 0 <= i < natural(n).len() ==> 48 <= (#[trigger] natural(n)[i]) as int <= 57,
        natural(n)[0] as int == 48 ==> natural(n).len() == 1,
    decreases n,
{
    if n < 10 {
        assert(natural(n).drop_last() =~= Seq::<char>::empty());
        assert(value(natural(n).drop_last()) == 0);
    } else {
        notations_denote_their_number(n / 10);
        assert(natural(n).drop_last() =~= natural(n / 10));
        if natural(n)[0] as int == 48 {
            assert(natural(n / 10).len() == 1);
            assert(value(natural(n / 10).drop_last()) == 0) by {
                assert(natural(n / 10).drop_last() =~= Seq::<char>::empty());
            }
        }
    }
}

/// A negative number is written as its opposite behind a minus sign, any other as a
/// natural number.
pub proof fn negative_numbers_have_a_sign(n: int)
    ensures
        n < 0 ==> integer(n).len() > 0 && integer(n)[0] == '-' && value(integer(n).skip(1)) == -n,
        n >= 0 ==> value(integer(n)) == n,
{
    if n < 0 {
        notations_denote_their_number((-n) as nat);
        assert(integer(n).skip(1) =~= natural((-n) as nat));
    } else {
        notations_denote_their_number(n as nat);
    }
}

} // verus!
