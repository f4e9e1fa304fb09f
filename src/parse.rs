//! Reading networks and tolerances from text.

use crate::cidr::Cidr;
use crate::text::{decimal, push_decimal};
use vstd::arithmetic::power2::pow2;
use vstd::bits::{lemma_u64_pow2_no_overflow, lemma_u64_shl_is_mul};
use vstd::prelude::*;

verus! {

/// What `ipnet` reads from a string in CIDR notation: the address as written and
/// the prefix length, or `None` when the text is not an IPv4 network.
pub uninterp spec fn ipv4_net_from_str(s: Seq<char>) -> Option<(u32, u8)>;

/// What `str::trim` leaves of a string.
pub uninterp spec fn str_trim(s: Seq<char>) -> Seq<char>;

/// Relies on `<ipnet::Ipv4Net as FromStr>::from_str`, which reads an IPv4 network in
/// CIDR notation, keeps its prefix length at 32 or below, and on failure gives an
/// error that displays as `invalid IP address syntax`.
#[verifier::external_body]
fn ipnet_parse(s: &str) -> (r: Result<Cidr, String>)
    ensures
        r matches Ok(c) ==> ipv4_net_from_str(s@) == Some((c.addr, c.prefix_len)),
        r matches Ok(c) ==> c.prefix_len <= 32,
        r is Err ==> ipv4_net_from_str(s@) is None,
        r matches Err(e) ==> e@ == "invalid IP address syntax"@,
{
    match s.parse::<ipnet::Ipv4Net>() {
        Ok(net) => Ok(Cidr { addr: u32::from(net.addr()), prefix_len: net.prefix_len() }),
        Err(e) => Err(e.to_string()),
    }
}

/// Relies on `str::trim`.
#[verifier::external_body]
fn trim_line(s: &str) -> (r: &str)
    ensures
        r@ == str_trim(s@),
{
    s.trim()
}

/// Reads one network in CIDR notation, as `ipnet` does.
pub fn parse_cidr(s: &str) -> (r: Result<Cidr, String>)
    ensures
        r matches Ok(c) ==> ipv4_net_from_str(s@) == Some((c.addr, c.prefix_len)) && c.wf(),
        r is Err <==> ipv4_net_from_str(s@) is None,
        r matches Err(e) ==> e@ == "invalid IP address syntax"@,
{
    ipnet_parse(s)
}

impl core::str::FromStr for Cidr {
    type Err = String;

    fn from_str(s: &str) -> Result<Cidr, String> {
        parse_cidr(s)
    }
}

/// The error for a line that holds no valid network.
pub open spec fn line_error(line_number: nat) -> Seq<char> {
    "Line "@ + decimal(line_number) + ": "@ + "invalid IP address syntax"@
}

/// Reading `lines` from index `from` on: blank lines (once trimmed) are skipped,
/// every other line must hold one network; the first line that does not gives
/// the error, with its 1-based number.
pub open spec fn parse_lines(lines: Seq<String>, from: int) -> Result<Seq<Cidr>, Seq<char>>
    decreases lines.len() - from,
{
    if from < 0 || from >= lines.len() {
        Ok(Seq::empty())
    } else {
        let t = str_trim(lines[from]@);
        if t.len() == 0 {
            parse_lines(lines, from + 1)
        } else {
            match ipv4_net_from_str(t) {
                None => Err(line_error((from + 1) as nat)),
                Some((addr, prefix_len)) => match parse_lines(lines, from + 1) {
                    Ok(rest) => Ok(seq![Cidr { addr, prefix_len }] + rest),
                    Err(e) => Err(e),
                },
            }
        }
    }
}

/// Parses IPv4 networks, one per line. Blank lines are skipped; the first line
/// that holds no valid network gives an error naming its 1-based line number.
pub fn parse_ipv4_nets(lines: &[String]) -> (r: Result<Vec<Cidr>, String>)
    ensures
        match (r, parse_lines(lines@, 0)) {
            (Ok(v), Ok(s)) => v@ == s,
            (Err(e), Err(m)) => e@ == m,
            _ => false,
        },
{
    let mut nets: Vec<Cidr> = Vec::new();
    let mut idx: usize = 0;
    while idx < lines.len()
        invariant
            idx <= lines@.len(),
            parse_lines(lines@, 0) == match parse_lines(lines@, idx as int) {
                Ok(rest) => Ok(nets@ + rest),
                Err(e) => Err(e),
            },
        decreases lines@.len() - idx,
    {
        let trimmed = trim_line(lines[idx].as_str());
        if trimmed.is_empty() {
            idx = idx + 1;
            continue;
        }
        match ipnet_parse(trimmed) {
            Ok(net) => {
                proof {
                    let rest = parse_lines(lines@, idx + 1);
                    if rest is Ok {
                        assert(nets@.push(net) + rest->Ok_0 =~= nets@ + (seq![net] + rest->Ok_0));
                    }
                }
                nets.push(net);
            },
            Err(err) => {
                let mut msg = "Line ".to_owned();
                push_decimal(&mut msg, (idx + 1) as u64);
                msg.append(": ");
                msg.append(err.as_str());
                return Err(msg);
            },
        }
        idx = idx + 1;
    }
    proof {
        assert(nets@ + Seq::<Cidr>::empty() =~= nets@);
    }
    Ok(nets)
}

/// Every character of `s` is an ASCII decimal digit, and there is at least one.
pub open spec fn is_digits(s: Seq<char>) -> bool {
    s.len() > 0 && forall|i: int| 0 <= i < s.len() ==> '0' <= #[trigger] s[i] <= '9'
}

/// The value of a string of decimal digits.
pub open spec fn digits_value(s: Seq<char>) -> nat
    decreases s.len(),
{
    if s.len() == 0 {
        0
    } else {
        digits_value(s.drop_last()) * 10 + ((s.last() as u32 - '0' as u32) as nat)
    }
}

/// The value of an unsigned integer in decimal, with an optional leading `+`.
pub open spec fn unsigned_decimal(s: Seq<char>) -> Option<nat> {
    let digits = if s.len() > 0 && s[0] == '+' {
        s.drop_first()
    } else {
        s
    };
    if is_digits(digits) {
        Some(digits_value(digits))
    } else {
        None
    }
}

/// Relies on `<u8 as FromStr>::from_str`: an optional `+`, then decimal digits whose
/// value is at most 255; anything else is an error.
#[verifier::external_body]
fn parse_u8(s: &str) -> (r: Option<u8>)
    ensures
        r is Some <==> (unsigned_decimal(s@) is Some && unsigned_decimal(s@)->0 <= u8::MAX),
        r matches Some(v) ==> unsigned_decimal(s@) == Some(v as nat),
{
    s.parse::<u8>().ok()
}

/// Relies on `<u64 as FromStr>::from_str`: an optional `+`, then decimal digits whose
/// value fits in a `u64`; anything else is an error.
#[verifier::external_body]
fn parse_u64(s: &str) -> (r: Option<u64>)
    ensures
        r is Some <==> (unsigned_decimal(s@) is Some && unsigned_decimal(s@)->0 <= u64::MAX),
        r matches Some(v) ==> unsigned_decimal(s@) == Some(v as nat),
{
    s.parse::<u64>().ok()
}

/// A tolerance as a number of addresses: a decimal integer (`512`), or a prefix
/// length after `/` (`/16`), which stands for the `2^(32 - len)` addresses of such a
/// block. Otherwise the error message that the input gets.
pub open spec fn tolerance_from(s: Seq<char>) -> Result<u64, Seq<char>> {
    if s.len() > 0 && s[0] == '/' {
        let rest = s.drop_first();
        let parsed = unsigned_decimal(rest);
        if parsed is Some && parsed->0 <= u8::MAX {
            let p = parsed->0;
            if p > 32 {
                Err("Prefix length must be between 0 and 32, got: "@ + decimal(p))
            } else {
                Ok(pow2((32 - p) as nat) as u64)
            }
        } else {
            Err("Invalid prefix length: "@ + rest)
        }
    } else {
        let parsed = unsigned_decimal(s);
        if parsed is Some && parsed->0 <= u64::MAX {
            Ok(parsed->0 as u64)
        } else {
            Err("Invalid tolerance value: "@ + s + ". Expected an integer or bit mask size like /16"@)
        }
    }
}

/// Parses a tolerance: a number of addresses (`512`) or a prefix length after a
/// slash (`/16`, meaning `2^(32 - 16)` addresses).
pub fn parse_tolerance(s: &str) -> (r: Result<u64, String>)
    ensures
        match (r, tolerance_from(s@)) {
            (Ok(v), Ok(w)) => v == w,
            (Err(e), Err(m)) => e@ == m,
            _ => false,
        },
{
    let n = s.unicode_len();
    if n > 0 && s.get_char(0) == '/' {
        let prefix_len_str = s.substring_char(1, n);
        assert(prefix_len_str@ =~= s@.drop_first());
        match parse_u8(prefix_len_str) {
            Some(prefix_len) => {
                if prefix_len > 32 {
                    let mut msg = "Prefix length must be between 0 and 32, got: ".to_owned();
                    push_decimal(&mut msg, prefix_len as u64);
                    Err(msg)
                } else {
                    let shift: u64 = (32 - prefix_len) as u64;
                    proof {
                        lemma_u64_pow2_no_overflow(shift as nat);
                        lemma_u64_shl_is_mul(1, shift);
                    }
                    Ok(1u64 << shift)
                }
            },
            None => {
                let mut msg = "Invalid prefix length: ".to_owned();
                msg.append(prefix_len_str);
                Err(msg)
            },
        }
    } else {
        match parse_u64(s) {
            Some(value) => Ok(value),
            None => {
                let mut msg = "Invalid tolerance value: ".to_owned();
                msg.append(s);
                msg.append(". Expected an integer or bit mask size like /16");
                Err(msg)
            },
        }
    }
}

} // verus!
