//! The lengths a bitonic network is built for, and the message for one
//! that it is not.
use vstd::prelude::*;
use vstd::arithmetic::power2::is_pow2;
use vstd::string::*;

verus! {

/// A length that a bitonic network is built for: a power of two.
pub open spec fn is_network_length(n: nat) -> bool {
    is_pow2(n as int)
}

/// A length that the validating sorter takes: a network length, or zero,
/// where there is nothing to sort.
pub open spec fn is_accepted_length(n: nat) -> bool {
    n == 0 || is_network_length(n)
}

/// A network length above one is even, and its half is a network length.
pub proof fn lemma_network_length_halves(n: nat)
    requires
        is_network_length(n),
    ensures
        n >= 1,
        n > 1 ==> n % 2 == 0 && is_network_length(n / 2),
{
    reveal(is_pow2);
}

/// Whether `n` is a power of two.
pub fn is_power_of_two(n: usize) -> (r: bool)
    ensures
        r == is_network_length(n as nat),
{
    if n == 0 {
        proof {
            reveal(is_pow2);
        }
        return false;
    }
    let mut rest: usize = n;
    while rest % 2 == 0
        invariant
            rest >= 1,
            is_pow2(rest as int) == is_pow2(n as int),
        decreases rest,
    {
        proof {
            reveal(is_pow2);
        }
        rest = rest / 2;
    }
    proof {
        reveal(is_pow2);
    }
    rest == 1
}

/// The decimal digit for `d`.
pub open spec fn digit(d: nat) -> char {
    if d == 0 {
        '0'
    } else if d == 1 {
        '1'
    } else if d == 2 {
        '2'
    } else if d == 3 {
        '3'
    } else if d == 4 {
        '4'
    } else if d == 5 {
        '5'
    } else if d == 6 {
        '6'
    } else if d == 7 {
        '7'
    } else if d == 8 {
        '8'
    } else {
        '9'
    }
}

/// `n` written in decimal, without leading zeros.
pub open spec fn decimal(n: nat) -> Seq<char>
    decreases n,
{
    if n < 10 {
        seq![digit(n)]
    } else {
        decimal(n / 10).push(digit(n % 10))
    }
}

/// What a caller is told when the length `n` is refused.
pub open spec fn length_error_text(n: nat) -> Seq<char> {
    "The length of `x` is not a power of two. (x.len(): "@ + decimal(n) + ")"@
}

fn digit_text(d: usize) -> (text: &'static str)
    requires
        d < 10,
    ensures
        text@ == seq![digit(d as nat)],
{
    proof {
        reveal_strlit("0");
        reveal_strlit("1");
        reveal_strlit("2");
        reveal_strlit("3");
        reveal_strlit("4");
        reveal_strlit("5");
        reveal_strlit("6");
        reveal_strlit("7");
        reveal_strlit("8");
        reveal_strlit("9");
    }
    let text = match d {
        0 => "0",
        1 => "1",
        2 => "2",
        3 => "3",
        4 => "4",
        5 => "5",
        6 => "6",
        7 => "7",
        8 => "8",
        _ => "9",
    };
    assert(text@ =~= seq![digit(d as nat)]);
    text
}

fn push_decimal(text: &mut String, n: usize)
    ensures
        final(text)@ == old(text)@ + decimal(n as nat),
    decreases n,
{
    if n >= 10 {
        push_decimal(text, n / 10);
    }
    text.append(digit_text(n % 10));
    assert(text@ =~= old(text)@ + decimal(n as nat));
}

/// The message for a refused length.
pub fn length_error(n: usize) -> (text: String)
    ensures
        text@ == length_error_text(n as nat),
{
    let mut text = String::from_str("The length of `x` is not a power of two. (x.len(): ");
    push_decimal(&mut text, n);
    text.append(")");
    text
}

} // verus!
