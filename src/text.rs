//! Writing networks and numbers as text.

use crate::cidr::Cidr;
use vstd::prelude::*;

verus! {

/// The character of a decimal digit.
pub open spec fn digit_char(d: int) -> char {
    if d == 0 {
        '0'
    } else if d == 1 {
        '1'
    } else if d == 2 {
        '2'
    } else if d == 3 {
        '3'
    } else if d == 4 {
        '4'
    } else if d == 5 {
        '5'
    } else if d == 6 {
        '6'
    } else if d == 7 {
        '7'
    } else if d == 8 {
        '8'
    } else {
        '9'
    }
}

/// `n` written in decimal, without leading zeros.
pub open spec fn decimal(n: nat) -> Seq<char>
    decreases n,
{
    if n < 10 {
        seq![digit_char(n as int)]
    } else {
        decimal(n / 10).push(digit_char((n % 10) as int))
    }
}

/// A network in dotted-decimal notation followed by `/` and the prefix length,
/// as in `10.0.0.0/24`.
pub open spec fn cidr_text(c: Cidr) -> Seq<char> {
    let a = c.addr as nat;
    decimal(a / 0x100_0000) + seq!['.'] + decimal((a / 0x1_0000) % 256) + seq!['.'] + decimal(
        (a / 256) % 256,
    ) + seq!['.'] + decimal(a % 256) + seq!['/'] + decimal(c.prefix_len as nat)
}

fn digit_text(d: u64) -> (r: &'static str)
    requires
        d < 10,
    ensures
        r@ == seq![digit_char(d as int)],
{
    proof {
        reveal_strlit("0");
        reveal_strlit("1");
        reveal_strlit("2");
        reveal_strlit("3");
        reveal_strlit("4");
        reveal_strlit("5");
        reveal_strlit("6");
        reveal_strlit("7");
        reveal_strlit("8");
        reveal_strlit("9");
    }
    match d {
        0 => "0",
        1 => "1",
        2 => "2",
        3 => "3",
        4 => "4",
        5 => "5",
        6 => "6",
        7 => "7",
        8 => "8",
        _ => "9",
    }
}

/// Appends `n` in decimal to `out`.
pub fn push_decimal(out: &mut String, n: u64)
    ensures
        final(out)@ == old(out)@ + decimal(n as nat),
    decreases n,
{
    if n >= 10 {
        push_decimal(out, n / 10);
    }
    out.append(digit_text(n % 10));
    proof {
        if n >= 10 {
            assert(decimal(n as nat) == decimal((n / 10) as nat).push(digit_char((n % 10) as int)));
        }
    }
}

impl Cidr {
    /// The network as text: dotted-decimal address, `/`, prefix length.
    pub fn to_text(&self) -> (r: String)
        ensures
            r@ == cidr_text(*self),
    {
        let a = self.addr as u64;
        let mut out = String::new();
        proof {
            reveal_strlit(".");
            reveal_strlit("/");
        }
        push_decimal(&mut out, a / 0x100_0000);
        out.append(".");
        push_decimal(&mut out, (a / 0x1_0000) % 256);
        out.append(".");
        push_decimal(&mut out, (a / 256) % 256);
        out.append(".");
        push_decimal(&mut out, a % 256);
        out.append("/");
        push_decimal(&mut out, self.prefix_len as u64);
        assert(out@ =~= cidr_text(*self));
        out
    }
}

} // verus!
