//! IPv4 networks as an address and a prefix length, with their address ranges.

use vstd::arithmetic::div_mod::*;
use vstd::arithmetic::power2::*;
use vstd::bits::*;
use vstd::prelude::*;

verus! {

/// Number of addresses in a block with the given prefix length: `2^(32 - prefix_len)`.
pub open spec fn block_size(prefix_len: int) -> int {
    pow2((32 - prefix_len) as nat) as int
}

/// An IPv4 network: an address and a prefix length.
///
/// The address need not have its host bits cleared; every derived quantity
/// (first and last address, coverage, overlap) uses the aligned network address.
#[derive(Clone, Copy, Debug, PartialEq, Eq, Structural)]
pub struct Cidr {
    pub addr: u32,
    pub prefix_len: u8,
}

impl Cidr {
    /// A valid network has a prefix length of at most 32.
    pub open spec fn wf(self) -> bool {
        self.prefix_len <= 32
    }

    pub open spec fn size(self) -> int {
        block_size(self.prefix_len as int)
    }

    /// The network address: `addr` with the low `32 - prefix_len` bits cleared.
    pub open spec fn first(self) -> int {
        (self.addr as int / self.size()) * self.size()
    }

    /// The broadcast address: the network address with the host bits set.
    pub open spec fn last(self) -> int {
        self.first() + self.size() - 1
    }

    pub open spec fn contains(self, a: int) -> bool {
        self.first() <= a <= self.last()
    }

    /// `self` wholly contains `other`, and is not the longer prefix of the two.
    pub open spec fn covers(self, other: Cidr) -> bool {
        &&& self.prefix_len <= other.prefix_len
        &&& self.first() <= other.first()
        &&& other.last() <= self.last()
    }

    /// The same network written with its host bits cleared.
    pub open spec fn canonical(self) -> Cidr {
        Cidr { addr: self.first() as u32, prefix_len: self.prefix_len }
    }

    pub open spec fn is_canonical(self) -> bool {
        self.addr == self.first()
    }

    /// Makes a network from an address and a prefix length; `None` when the
    /// prefix length is over 32.
    pub fn new(addr: u32, prefix_len: u8) -> (r: Option<Cidr>)
        ensures
            prefix_len <= 32 ==> r == Some(Cidr { addr, prefix_len }),
            prefix_len > 32 ==> r is None,
    {
        if prefix_len <= 32 {
            Some(Cidr { addr, prefix_len })
        } else {
            None
        }
    }

    /// The address as given.
    pub fn addr(&self) -> (r: u32)
        ensures
            r == self.addr,
    {
        self.addr
    }

    /// The prefix length.
    pub fn prefix_len(&self) -> (r: u8)
        ensures
            r == self.prefix_len,
    {
        self.prefix_len
    }

    /// Number of addresses in the network, `2^(32 - prefix_len)`.
    pub fn address_count(&self) -> (r: u64)
        requires
            self.wf(),
        ensures
            r == self.size(),
            1 <= r <= 0x1_0000_0000,
    {
        let shift: u64 = (32 - self.prefix_len) as u64;
        proof {
            lemma_u64_pow2_no_overflow(shift as nat);
            lemma_u64_shl_is_mul(1, shift);
            lemma_pow2_pos(shift as nat);
            lemma_pow2_increases(shift as nat, 32);
            lemma2_to64();
        }
        1u64 << shift
    }

    /// The network address, host bits cleared.
    pub fn network(&self) -> (r: u32)
        requires
            self.wf(),
        ensures
            r == self.first(),
    {
        proof {
            lemma_cidr_bounds(*self);
        }
        let size = self.address_count();
        ((self.addr as u64 / size) * size) as u32
    }

    /// The broadcast address, host bits set.
    pub fn broadcast(&self) -> (r: u32)
        requires
            self.wf(),
        ensures
            r == self.last(),
    {
        proof {
            lemma_cidr_bounds(*self);
        }
        let size = self.address_count();
        ((self.addr as u64 / size) * size + (size - 1)) as u32
    }

    /// The same network with its host bits cleared.
    pub fn trunc(&self) -> (r: Cidr)
        requires
            self.wf(),
        ensures
            r == self.canonical(),
            r.wf(),
            r.is_canonical(),
            r.first() == self.first(),
            r.last() == self.last(),
    {
        proof {
            lemma_cidr_bounds(*self);
            lemma_cidr_bounds(self.canonical());
        }
        Cidr { addr: self.network(), prefix_len: self.prefix_len }
    }
}

/// Where the network of a valid `Cidr` lies: aligned, within the 32-bit space,
/// and holding its own address.
pub proof fn lemma_cidr_bounds(c: Cidr)
    requires
        c.wf(),
    ensures
        c.size() >= 1,
        c.size() <= 0x1_0000_0000,
        0 <= c.first() <= c.addr <= c.last(),
        c.last() < 0x1_0000_0000,
        c.first() % c.size() == 0,
        c.first() / c.size() == c.addr as int / c.size(),
{
    let s = c.size();
    let k = (32 - c.prefix_len) as nat;
    let m = c.prefix_len as nat;
    lemma_pow2_pos(k);
    lemma_pow2_pos(m);
    lemma_pow2_adds(k, m);
    lemma2_to64();
    lemma_pow2_increases(k, 32);
    let a = c.addr as int;
    let q = a / s;
    lemma_fundamental_div_mod(a, s);
    lemma_mod_bound(a, s);
    let t = pow2(m) as int;
    assert(s * t == 0x1_0000_0000);
    assert(q < t) by (nonlinear_arith)
        requires
            a == s * q + a % s,
            0 <= a % s < s,
            a < s * t,
            s > 0,
    ;
    assert(q >= 0) by (nonlinear_arith)
        requires
            a == s * q + a % s,
            0 <= a % s < s,
            a >= 0,
            s > 0,
    ;
    assert(q * s + s <= 0x1_0000_0000) by (nonlinear_arith)
        requires
            q < t,
            s * t == 0x1_0000_0000,
            s > 0,
    ;
    assert(q * s == s * q) by (nonlinear_arith);
    lemma_mod_multiples_basic(q, s);
    lemma_div_multiples_vanish(q, s);
}

/// Number of addresses that two networks have in common.
pub open spec fn overlap_size(a: Cidr, b: Cidr) -> int {
    let lo = if a.first() >= b.first() { a.first() } else { b.first() };
    let hi = if a.last() <= b.last() { a.last() } else { b.last() };
    if lo <= hi {
        hi - lo + 1
    } else {
        0
    }
}

/// Number of addresses in `net`: `2^(32 - prefix_len)`.
pub fn network_address_count(net: &Cidr) -> (r: u64)
    requires
        net.wf(),
    ensures
        r == net.size(),
        1 <= r <= 0x1_0000_0000,
{
    net.address_count()
}

/// Whether `supernet` wholly contains `subnet` with a prefix no longer than its own.
pub fn network_covers(supernet: &Cidr, subnet: &Cidr) -> (r: bool)
    requires
        supernet.wf(),
        subnet.wf(),
    ensures
        r == supernet.covers(*subnet),
{
    if supernet.prefix_len > subnet.prefix_len {
        return false;
    }
    let super_start = supernet.network();
    let super_end = supernet.broadcast();
    let sub_start = subnet.network();
    let sub_end = subnet.broadcast();
    super_start <= sub_start && super_end >= sub_end
}

/// Number of addresses that lie in both `a` and `b` (0 when they are disjoint).
pub fn network_overlap(a: &Cidr, b: &Cidr) -> (r: u64)
    requires
        a.wf(),
        b.wf(),
    ensures
        r == overlap_size(*a, *b),
        r <= a.size(),
        r <= b.size(),
{
    proof {
        lemma_cidr_bounds(*a);
        lemma_cidr_bounds(*b);
    }
    let a_start = a.network();
    let a_end = a.broadcast();
    let b_start = b.network();
    let b_end = b.broadcast();
    let overlap_start = if a_start >= b_start { a_start } else { b_start };
    let overlap_end = if a_end <= b_end { a_end } else { b_end };
    if overlap_start <= overlap_end {
        (overlap_end - overlap_start) as u64 + 1
    } else {
        0
    }
}

/// Clearing the host bits keeps the network's range and makes it canonical.
pub proof fn lemma_canonical(c: Cidr)
    requires
        c.wf(),
    ensures
        c.canonical().wf(),
        c.canonical().is_canonical(),
        c.canonical().first() == c.first(),
        c.canonical().last() == c.last(),
        c.canonical().size() == c.size(),
        forall|a: int| c.canonical().contains(a) <==> c.contains(a),
{
    lemma_cidr_bounds(c);
    let f = c.first();
    let s = c.size();
    lemma_fundamental_div_mod(f, s);
    assert(s * (f / s) == (f / s) * s) by (nonlinear_arith);
}

/// A canonical network has its address as its first address.
pub proof fn lemma_aligned(c: Cidr)
    requires
        c.wf(),
        c.addr as int % c.size() == 0,
    ensures
        c.is_canonical(),
{
    lemma_cidr_bounds(c);
    let s = c.size();
    let a = c.addr as int;
    lemma_fundamental_div_mod(a, s);
    assert(s * (a / s) == (a / s) * s) by (nonlinear_arith);
}

/// Aligned blocks never partly overlap: when `b` starts inside `a`, either `a`
/// covers `b`, or `b` is the larger block and starts where `a` starts.
pub proof fn lemma_nested(a: Cidr, b: Cidr)
    requires
        a.wf(),
        b.wf(),
        a.first() <= b.first() <= a.last(),
    ensures
        a.prefix_len <= b.prefix_len ==> a.covers(b),
        b.prefix_len < a.prefix_len ==> b.first() == a.first(),
{
    lemma_cidr_bounds(a);
    lemma_cidr_bounds(b);
    let sa = a.size();
    let sb = b.size();
    let fa = a.first();
    let fb = b.first();
    if a.prefix_len <= b.prefix_len {
        let k = pow2((b.prefix_len - a.prefix_len) as nat) as int;
        lemma_pow2_adds((32 - b.prefix_len) as nat, (b.prefix_len - a.prefix_len) as nat);
        assert(sa == sb * k);
        lemma_pow2_pos((b.prefix_len - a.prefix_len) as nat);
        // fa is a multiple of sa, hence of sb
        let qa = fa / sa;
        lemma_fundamental_div_mod(fa, sa);
        let qb = fb / sb;
        lemma_fundamental_div_mod(fb, sb);
        assert(fa == sb * (qa * k)) by (nonlinear_arith)
            requires
                fa == sa * qa + 0,
                sa == sb * k,
        ;
        let d = qb - qa * k;
        assert(fb - fa == sb * d) by (nonlinear_arith)
            requires
                fb == sb * qb + 0,
                fa == sb * (qa * k),
                d == qb - qa * k,
        ;
        assert(d < k) by (nonlinear_arith)
            requires
                fb - fa == sb * d,
                fb - fa < sb * k,
                sb > 0,
        ;
        assert(sb * d <= sb * k - sb) by (nonlinear_arith)
            requires
                d < k,
                sb > 0,
        ;
    } else {
        let k = pow2((a.prefix_len - b.prefix_len) as nat) as int;
        lemma_pow2_adds((32 - a.prefix_len) as nat, (a.prefix_len - b.prefix_len) as nat);
        assert(sb == sa * k);
        lemma_pow2_pos((a.prefix_len - b.prefix_len) as nat);
        let qa = fa / sa;
        lemma_fundamental_div_mod(fa, sa);
        let qb = fb / sb;
        lemma_fundamental_div_mod(fb, sb);
        let d = qb * k - qa;
        assert(fb - fa == sa * d) by (nonlinear_arith)
            requires
                fb == sb * qb + 0,
                fa == sa * qa + 0,
                sb == sa * k,
                d == qb * k - qa,
        ;
        assert(d == 0) by (nonlinear_arith)
            requires
                fb - fa == sa * d,
                0 <= fb - fa < sa,
                sa > 0,
        ;
    }
}

pub proof fn lemma_pow2_increases(e1: nat, e2: nat)
    requires
        e1 <= e2,
    ensures
        pow2(e1) <= pow2(e2),
{
    if e1 < e2 {
        lemma_pow2_strictly_increases(e1, e2);
    }
}

} // verus!
