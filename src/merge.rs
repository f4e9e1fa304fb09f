//! Merging two neighbouring networks: losslessly, or within a tolerance of extra
//! addresses.

use crate::cidr::{
    block_size, lemma_aligned, lemma_cidr_bounds, lemma_pow2_increases, network_address_count, network_overlap,
    overlap_size, Cidr,
};
use vstd::arithmetic::div_mod::*;
use vstd::arithmetic::power2::*;
use vstd::bits::*;
use vstd::prelude::*;

verus! {

/// The lossless merge of `a` and `b`: equal prefix lengths `p > 0`, `a` the lower
/// half of a block of prefix `p - 1`, `b` the upper half.
pub open spec fn exact_merge(a: Cidr, b: Cidr) -> Option<Cidr> {
    if a.prefix_len == b.prefix_len && a.prefix_len > 0 && a.first() % (2 * a.size()) == 0
        && b.first() == a.first() + a.size() {
        Some(Cidr { addr: a.first() as u32, prefix_len: (a.prefix_len - 1) as u8 })
    } else {
        None
    }
}

/// The longest prefix length, at most `p`, at which `lo` and `hi` fall in the same block.
pub open spec fn common_prefix_from(lo: int, hi: int, p: int) -> int
    decreases p,
{
    if p <= 0 {
        0
    } else if lo / block_size(p) == hi / block_size(p) {
        p
    } else {
        common_prefix_from(lo, hi, p - 1)
    }
}

/// The smallest aligned block that holds both `a` and `b`.
pub open spec fn covering_supernet(a: Cidr, b: Cidr) -> Cidr {
    let lo = if a.first() <= b.first() { a.first() } else { b.first() };
    let hi = if a.last() >= b.last() { a.last() } else { b.last() };
    let p = common_prefix_from(lo, hi, 32);
    Cidr { addr: ((lo / block_size(p)) * block_size(p)) as u32, prefix_len: p as u8 }
}

/// Addresses that `s` holds beyond the union of `a` and `b` (never below 0).
pub open spec fn extra_addresses(a: Cidr, b: Cidr, s: Cidr) -> int {
    let union = a.size() + b.size() - overlap_size(a, b);
    if s.size() >= union {
        s.size() - union
    } else {
        0
    }
}

/// The merge that the compactor applies to two neighbours: the lossless merge
/// when there is one (0 extra addresses); else, with a positive tolerance, the
/// covering supernet when it adds at most `tolerance` addresses.
pub open spec fn tolerance_merge(a: Cidr, b: Cidr, tolerance: int) -> Option<(Cidr, int)> {
    match exact_merge(a, b) {
        Some(s) => Some((s, 0)),
        None => {
            if tolerance == 0 {
                None
            } else {
                let s = covering_supernet(a, b);
                let extra = extra_addresses(a, b, s);
                if extra <= tolerance {
                    Some((s, extra))
                } else {
                    None
                }
            }
        },
    }
}

pub proof fn lemma_common_prefix_range(lo: int, hi: int, p: int)
    requires
        0 <= p,
    ensures
        0 <= common_prefix_from(lo, hi, p) <= p,
    decreases p,
{
    if p > 0 {
        lemma_common_prefix_range(lo, hi, p - 1);
    }
}

/// The lossless merge yields a valid canonical block made of exactly `a` and `b`.
pub proof fn lemma_exact_merge(a: Cidr, b: Cidr)
    requires
        a.wf(),
        b.wf(),
        exact_merge(a, b) is Some,
    ensures
        exact_merge(a, b)->Some_0.wf(),
        exact_merge(a, b)->Some_0.is_canonical(),
        exact_merge(a, b)->Some_0.first() == a.first(),
        exact_merge(a, b)->Some_0.last() == b.last(),
        b.first() == a.last() + 1,
        forall|x: int| #[trigger]
            exact_merge(a, b)->Some_0.contains(x) <==> (a.contains(x) || b.contains(x)),
{
    let s = exact_merge(a, b)->Some_0;
    lemma_cidr_bounds(a);
    lemma_cidr_bounds(b);
    lemma_pow2_adds((32 - a.prefix_len) as nat, 1);
    lemma2_to64();
    assert(s.size() == 2 * a.size());
    lemma_cidr_bounds(s);
    let f = a.first();
    let z = s.size();
    lemma_fundamental_div_mod(f, z);
    assert(z * (f / z) == (f / z) * z) by (nonlinear_arith);
    assert(s.first() == f);
    lemma_aligned(s);
}

/// Every supernet that the tolerance merge yields is valid and canonical.
pub proof fn lemma_tolerance_merge_canonical(a: Cidr, b: Cidr, tolerance: int)
    requires
        a.wf(),
        b.wf(),
        tolerance_merge(a, b, tolerance) is Some,
    ensures
        tolerance_merge(a, b, tolerance)->Some_0.0.wf(),
        tolerance_merge(a, b, tolerance)->Some_0.0.is_canonical(),
{
    if exact_merge(a, b) is Some {
        lemma_exact_merge(a, b);
    } else {
        let s = covering_supernet(a, b);
        lemma_cidr_bounds(a);
        lemma_cidr_bounds(b);
        let lo = if a.first() <= b.first() { a.first() } else { b.first() };
        let hi = if a.last() >= b.last() { a.last() } else { b.last() };
        let p = common_prefix_from(lo, hi, 32);
        lemma_common_prefix_range(lo, hi, 32);
        let bs = block_size(p);
        lemma_pow2_pos((32 - p) as nat);
        let q = lo / bs;
        lemma_fundamental_div_mod(lo, bs);
        lemma_mod_bound(lo, bs);
        assert(0 <= q * bs <= lo) by (nonlinear_arith)
            requires
                lo == bs * q + lo % bs,
                0 <= lo % bs < bs,
                lo >= 0,
                bs > 0,
        ;
        assert(s.addr == q * bs);
        lemma_mod_multiples_basic(q, bs);
        assert(s.size() == bs);
        lemma_aligned(s);
    }
}

/// Lossless merge of two networks into their common supernet.
pub fn try_merge_exact(a: &Cidr, b: &Cidr) -> (r: Option<Cidr>)
    requires
        a.wf(),
        b.wf(),
    ensures
        r == exact_merge(*a, *b),
{
    if a.prefix_len != b.prefix_len || a.prefix_len == 0 {
        return None;
    }
    proof {
        lemma_cidr_bounds(*a);
        lemma_cidr_bounds(*b);
    }
    let prefix = a.prefix_len;
    let block_size = a.address_count();
    let a_net = a.network() as u64;
    let b_net = b.network() as u64;
    if a_net % (block_size * 2) != 0 {
        return None;
    }
    if a_net + block_size != b_net {
        return None;
    }
    Some(Cidr { addr: a.network(), prefix_len: prefix - 1 })
}

/// The smallest aligned block that holds both networks.
pub fn find_covering_supernet(a: &Cidr, b: &Cidr) -> (r: Option<Cidr>)
    requires
        a.wf(),
        b.wf(),
    ensures
        r == Some(covering_supernet(*a, *b)),
        covering_supernet(*a, *b).wf(),
{
    proof {
        lemma_cidr_bounds(*a);
        lemma_cidr_bounds(*b);
    }
    let a_start = a.network();
    let a_end = a.broadcast();
    let b_start = b.network();
    let b_end = b.broadcast();
    let min_start = if a_start <= b_start { a_start } else { b_start };
    let max_end = if a_end >= b_end { a_end } else { b_end };
    let lo = min_start as u64;
    let hi = max_end as u64;
    let mut prefix_len: u8 = 32;
    let mut block: u64 = 1;
    proof {
        lemma2_to64();
        assert(block_size(32) == 1);
    }
    while prefix_len > 0 && lo / block != hi / block
        invariant
            prefix_len <= 32,
            block == block_size(prefix_len as int),
            0 < block <= 0x1_0000_0000,
            lo < 0x1_0000_0000,
            hi < 0x1_0000_0000,
            common_prefix_from(lo as int, hi as int, prefix_len as int)
                == common_prefix_from(lo as int, hi as int, 32),
        decreases prefix_len,
    {
        proof {
            lemma_pow2_adds((32 - prefix_len) as nat, 1);
            lemma_pow2_increases((33 - prefix_len) as nat, 32);
            lemma2_to64();
        }
        prefix_len = prefix_len - 1;
        block = block * 2;
    }
    proof {
        lemma_pow2_pos((32 - prefix_len) as nat);
        lemma_pow2_increases((32 - prefix_len) as nat, 32);
        lemma2_to64();
        if prefix_len == 0 {
            lemma_basic_div(lo as int, block as int);
            lemma_basic_div(hi as int, block as int);
        }
        assert(common_prefix_from(lo as int, hi as int, prefix_len as int) == prefix_len);
        let q = lo as int / block as int;
        lemma_fundamental_div_mod(lo as int, block as int);
        lemma_mod_bound(lo as int, block as int);
        assert(q * block <= lo) by (nonlinear_arith)
            requires
                lo == block * q + lo % block,
                0 <= lo % block,
        ;
        assert(q >= 0) by (nonlinear_arith)
            requires
                lo == block * q + lo % block,
                lo % block < block,
                block > 0,
                lo >= 0,
        ;
        assert(q * block >= 0) by (nonlinear_arith)
            requires
                q >= 0,
                block > 0,
        ;
    }
    let aligned_start = (lo / block) * block;
    Some(Cidr { addr: aligned_start as u32, prefix_len })
}

/// Tries to merge two neighbours within `tolerance` extra addresses; on success
/// gives the supernet and the number of extra addresses it holds.
pub fn try_merge_with_tolerance(a: &Cidr, b: &Cidr, tolerance: u64) -> (r: Option<(Cidr, u64)>)
    requires
        a.wf(),
        b.wf(),
    ensures
        r matches Some((s, e)) ==> tolerance_merge(*a, *b, tolerance as int) == Some((s, e as int)),
        r is None ==> tolerance_merge(*a, *b, tolerance as int) is None,
        r matches Some((s, _)) ==> s.wf(),
{
    if let Some(supernet) = try_merge_exact(a, b) {
        return Some((supernet, 0));
    }
    if tolerance == 0 {
        return None;
    }
    let covering = match find_covering_supernet(a, b) {
        Some(s) => s,
        None => return None,
    };
    let a_addrs = network_address_count(a);
    let b_addrs = network_address_count(b);
    let overlap = network_overlap(a, b);
    let union_total = a_addrs + b_addrs - overlap;
    let supernet_addrs = network_address_count(&covering);
    let extra_addrs = supernet_addrs.saturating_sub(union_total);
    if extra_addrs <= tolerance {
        Some((covering, extra_addrs))
    } else {
        None
    }
}

} // verus!
