//! Why a larger tolerance never yields more networks: every network that a run at
//! a smaller tolerance builds lies inside one network of the result at the larger
//! one, and each network of that result holds one of them.

use crate::cidr::{
    block_size, lemma_cidr_bounds, lemma_nested, lemma_pow2_increases, overlap_size, Cidr,
};
use crate::compact::{
    canonical_all, compact, compaction_round, fixed_point, lemma_eliminate, lemma_normalized_len,
    merge_pass,
};
use crate::laws::{
    all_canonical, lemma_compact_is_fixed_point, lemma_round_shape, lemma_start_shape, no_covered,
    no_mergeable_neighbours,
};
use crate::merge::{
    common_prefix_from, covering_supernet, exact_merge, extra_addresses, lemma_common_prefix_range,
    lemma_exact_merge, lemma_tolerance_merge_canonical, tolerance_merge,
};
use crate::normalize::{
    all_wf, eliminate, lemma_normalized, normalized, sort_key, strictly_sorted,
};
use vstd::arithmetic::div_mod::*;
use vstd::arithmetic::power2::*;
use vstd::prelude::*;
use vstd::relations::injective_on;
use vstd::set_lib::{lemma_len_subset, lemma_map_size};

verus! {

/// `v` lies in the `k`-th block of size `bs`.
proof fn lemma_div_from_range(v: int, k: int, bs: int)
    requires
        bs > 0,
        k * bs <= v < k * bs + bs,
    ensures
        v / bs == k,
{
    lemma_fundamental_div_mod(v, bs);
    lemma_mod_bound(v, bs);
    let q = v / bs;
    assert(q == k) by (nonlinear_arith)
        requires
            v == bs * q + v % bs,
            0 <= v % bs < bs,
            k * bs <= v < k * bs + bs,
            bs > 0,
    ;
}

/// Two networks that share an address are nested: the one with the shorter
/// prefix covers the other.
pub proof fn lemma_share(x: Cidr, y: Cidr, a: int)
    requires
        x.wf(),
        y.wf(),
        x.contains(a),
        y.contains(a),
        x.prefix_len <= y.prefix_len,
    ensures
        x.covers(y),
{
    lemma_cidr_bounds(x);
    lemma_cidr_bounds(y);
    if x.first() <= y.first() {
        lemma_nested(x, y);
    } else {
        lemma_nested(y, x);
        if y.prefix_len <= x.prefix_len {
            lemma_pow2_increases((32 - y.prefix_len) as nat, (32 - x.prefix_len) as nat);
        }
    }
}

/// `lo` and `hi` fall in the same block of prefix length `q`.
pub open spec fn same_block(lo: int, hi: int, q: int) -> bool {
    lo / block_size(q) == hi / block_size(q)
}

proof fn lemma_common_prefix_same(lo: int, hi: int, p: int)
    requires
        0 <= lo <= hi < 0x1_0000_0000,
        0 <= p <= 32,
    ensures
        same_block(lo, hi, common_prefix_from(lo, hi, p)),
        forall|q: int| 0 <= q <= p && same_block(lo, hi, q) ==> q <= common_prefix_from(lo, hi, p),
    decreases p,
{
    if p <= 0 {
        lemma2_to64();
        lemma_div_from_range(lo, 0, 0x1_0000_0000);
        lemma_div_from_range(hi, 0, 0x1_0000_0000);
    } else if !same_block(lo, hi, p) {
        lemma_common_prefix_same(lo, hi, p - 1);
    }
}

/// A network that holds both `lo` and `hi` has them in one block of its prefix length.
proof fn lemma_contains_same_block(x: Cidr, lo: int, hi: int)
    requires
        x.wf(),
        x.contains(lo),
        x.contains(hi),
    ensures
        same_block(lo, hi, x.prefix_len as int),
{
    lemma_cidr_bounds(x);
    let bs = x.size();
    let k = x.addr as int / bs;
    assert(x.first() == k * bs);
    lemma_div_from_range(lo, k, bs);
    lemma_div_from_range(hi, k, bs);
}

/// What a successful tolerance merge yields: a valid block holding both networks,
/// and held by every valid block that holds both.
pub proof fn lemma_merge_result(a: Cidr, b: Cidr, tolerance: int)
    requires
        a.wf(),
        b.wf(),
        tolerance_merge(a, b, tolerance) is Some,
    ensures
        tolerance_merge(a, b, tolerance)->Some_0.0.wf(),
        tolerance_merge(a, b, tolerance)->Some_0.0.covers(a),
        tolerance_merge(a, b, tolerance)->Some_0.0.covers(b),
        forall|x: Cidr| x.wf() && x.covers(a) && x.covers(b) ==> x.covers(
            #[trigger] tolerance_merge(a, b, tolerance)->Some_0.0,
        ),
{
    let s = tolerance_merge(a, b, tolerance)->Some_0.0;
    lemma_cidr_bounds(a);
    lemma_cidr_bounds(b);
    if exact_merge(a, b) is Some {
        lemma_exact_merge(a, b);
        lemma_cidr_bounds(s);
        assert forall|x: Cidr| x.wf() && x.covers(a) && x.covers(b) implies x.covers(s) by {
            lemma_cidr_bounds(x);
            lemma_share(x, s, a.first());
        }
    } else {
        let lo = if a.first() <= b.first() { a.first() } else { b.first() };
        let hi = if a.last() >= b.last() { a.last() } else { b.last() };
        let p = common_prefix_from(lo, hi, 32);
        lemma_common_prefix_range(lo, hi, 32);
        lemma_common_prefix_same(lo, hi, 32);
        let bs = block_size(p);
        lemma_pow2_pos((32 - p) as nat);
        lemma_pow2_increases((32 - p) as nat, 32);
        lemma2_to64();
        let k = lo / bs;
        lemma_fundamental_div_mod(lo, bs);
        lemma_mod_bound(lo, bs);
        lemma_fundamental_div_mod(hi, bs);
        lemma_mod_bound(hi, bs);
        assert(k * bs <= lo < k * bs + bs) by (nonlinear_arith)
            requires
                lo == bs * k + lo % bs,
                0 <= lo % bs < bs,
        ;
        assert(k * bs <= hi < k * bs + bs) by (nonlinear_arith)
            requires
                hi == bs * k + hi % bs,
                0 <= hi % bs < bs,
        ;
        assert(0 <= k * bs) by (nonlinear_arith)
            requires
                k * bs <= lo,
                lo < k * bs + bs,
                lo >= 0,
                bs > 0,
        ;
        assert(s.addr == k * bs);
        assert(s.size() == bs);
        lemma_div_from_range(s.addr as int, k, bs);
        assert(s.first() == k * bs);
        assert(s.contains(a.first()) && s.contains(a.last()));
        assert(s.contains(b.first()) && s.contains(b.last()));
        lemma_contains_same_block(s, a.first(), a.last());
        if s.prefix_len > a.prefix_len {
            lemma_pow2_strictly_increases((32 - s.prefix_len) as nat, (32 - a.prefix_len) as nat);
        }
        if s.prefix_len > b.prefix_len {
            lemma_pow2_strictly_increases((32 - s.prefix_len) as nat, (32 - b.prefix_len) as nat);
        }
        assert forall|x: Cidr| x.wf() && x.covers(a) && x.covers(b) implies x.covers(s) by {
            lemma_cidr_bounds(x);
            assert(x.contains(lo) && x.contains(hi));
            lemma_contains_same_block(x, lo, hi);
            lemma_share(x, s, lo);
        }
    }
}

/// A valid, canonical, strictly increasing sequence in which no network covers another.
pub open spec fn is_disjoint_run(r: Seq<Cidr>) -> bool {
    &&& strictly_sorted(r)
    &&& all_wf(r)
    &&& all_canonical(r)
    &&& no_covered(r)
}

proof fn lemma_run_ordered(r: Seq<Cidr>, i: int, j: int)
    requires
        is_disjoint_run(r),
        0 <= i < j < r.len(),
    ensures
        r[i].last() < r[j].first(),
{
    assert(r[i].wf() && r[j].wf() && r[i].is_canonical() && r[j].is_canonical());
    assert(sort_key(r[i]) < sort_key(r[j]));
    assert(!r[i].covers(r[j]) && !r[j].covers(r[i]));
    lemma_cidr_bounds(r[i]);
    lemma_cidr_bounds(r[j]);
    if r[j].first() <= r[i].last() {
        lemma_nested(r[i], r[j]);
    }
}

proof fn lemma_run_unique_cover(r: Seq<Cidr>, i: int, j: int, c: Cidr)
    requires
        is_disjoint_run(r),
        0 <= i < r.len(),
        0 <= j < r.len(),
        c.wf(),
        r[i].covers(c),
        r[j].covers(c),
    ensures
        i == j,
{
    assert(r[i].wf() && r[j].wf());
    lemma_cidr_bounds(c);
    if i != j {
        assert(!r[i].covers(r[j]) && !r[j].covers(r[i]));
        if r[i].prefix_len <= r[j].prefix_len {
            lemma_share(r[i], r[j], c.first());
        } else {
            lemma_share(r[j], r[i], c.first());
        }
    }
}

/// The lower half of `s`.
pub open spec fn lower_half(s: Cidr) -> Cidr {
    Cidr { addr: s.first() as u32, prefix_len: (s.prefix_len + 1) as u8 }
}

/// The upper half of `s`.
pub open spec fn upper_half(s: Cidr) -> Cidr {
    Cidr { addr: (s.first() + s.size() / 2) as u32, prefix_len: (s.prefix_len + 1) as u8 }
}

proof fn lemma_halves(s: Cidr)
    requires
        s.wf(),
        s.prefix_len < 32,
    ensures
        lower_half(s).wf(),
        upper_half(s).wf(),
        lower_half(s).is_canonical(),
        upper_half(s).is_canonical(),
        lower_half(s).size() * 2 == s.size(),
        upper_half(s).size() * 2 == s.size(),
        lower_half(s).first() == s.first(),
        upper_half(s).first() == s.first() + lower_half(s).size(),
        upper_half(s).last() == s.last(),
        s.covers(lower_half(s)),
        s.covers(upper_half(s)),
{
    lemma_cidr_bounds(s);
    let l = lower_half(s);
    let h = upper_half(s);
    let hs = block_size(s.prefix_len + 1);
    lemma_pow2_adds((31 - s.prefix_len) as nat, 1);
    lemma2_to64();
    assert(s.size() == hs * 2);
    lemma_pow2_pos((31 - s.prefix_len) as nat);
    let k = s.addr as int / s.size();
    assert(s.first() == k * s.size());
    assert(s.first() == (2 * k) * hs) by (nonlinear_arith)
        requires
            s.first() == k * s.size(),
            s.size() == hs * 2,
    ;
    assert(s.first() + hs == (2 * k + 1) * hs) by (nonlinear_arith)
        requires
            s.first() == (2 * k) * hs,
    ;
    assert(l.size() == hs);
    assert(h.size() == hs);
    lemma_div_from_range(s.first(), 2 * k, hs);
    lemma_div_from_range(s.first() + hs, 2 * k + 1, hs);
}

/// A network inside `s` and smaller than it lies in one of the halves of `s`.
proof fn lemma_in_half(s: Cidr, x: Cidr)
    requires
        s.wf(),
        x.wf(),
        s.covers(x),
        x.prefix_len > s.prefix_len,
    ensures
        lower_half(s).covers(x) || upper_half(s).covers(x),
        lower_half(s).covers(x) ==> x.last() < upper_half(s).first(),
        upper_half(s).covers(x) ==> x.first() >= upper_half(s).first(),
{
    lemma_halves(s);
    lemma_cidr_bounds(x);
    let l = lower_half(s);
    let h = upper_half(s);
    if x.first() < h.first() {
        lemma_nested(l, x);
    } else {
        lemma_nested(h, x);
    }
}

/// When `r[i]` lies in the lower half of `s` and `r[j]` in the upper one, the
/// covering supernet of the two is `s` itself.
proof fn lemma_covering_is_parent(s: Cidr, a: Cidr, b: Cidr)
    requires
        s.wf(),
        s.is_canonical(),
        s.prefix_len < 32,
        a.wf(),
        b.wf(),
        lower_half(s).covers(a),
        upper_half(s).covers(b),
    ensures
        covering_supernet(a, b) == s,
        overlap_size(a, b) == 0,
        extra_addresses(a, b, s) == s.size() - a.size() - b.size(),
{
    lemma_halves(s);
    lemma_cidr_bounds(a);
    lemma_cidr_bounds(b);
    lemma_cidr_bounds(s);
    let lo = a.first();
    let hi = b.last();
    assert(s.contains(lo) && s.contains(hi));
    lemma_contains_same_block(s, lo, hi);
    lemma_common_prefix_same(lo, hi, 32);
    lemma_common_prefix_range(lo, hi, 32);
    let p = common_prefix_from(lo, hi, 32);
    let m = upper_half(s).first();
    if p > s.prefix_len {
        let bs = block_size(p);
        let hs = lower_half(s).size();
        let f = pow2((p - s.prefix_len - 1) as nat) as int;
        lemma_pow2_adds((32 - p) as nat, (p - s.prefix_len - 1) as nat);
        assert(hs == bs * f);
        lemma_pow2_pos((32 - p) as nat);
        let k = s.addr as int / s.size();
        assert(s.first() == k * s.size());
        assert(m == bs * ((2 * k + 1) * f)) by (nonlinear_arith)
            requires
                m == s.first() + hs,
                s.first() == k * s.size(),
                s.size() == hs * 2,
                hs == bs * f,
        ;
        let q = (2 * k + 1) * f;
        lemma_fundamental_div_mod(lo, bs);
        lemma_mod_bound(lo, bs);
        lemma_fundamental_div_mod(hi, bs);
        lemma_mod_bound(hi, bs);
        assert(lo / bs < hi / bs) by (nonlinear_arith)
            requires
                lo == bs * (lo / bs) + lo % bs,
                0 <= lo % bs < bs,
                hi == bs * (hi / bs) + hi % bs,
                0 <= hi % bs < bs,
                lo < bs * q <= hi,
                bs > 0,
        ;
    }
    assert(p == s.prefix_len);
    let k = s.addr as int / s.size();
    lemma_div_from_range(lo, k, s.size());
}

/// Inside a block `s` that holds two networks of the run, some pair of neighbours
/// in the run, between them, merges at any tolerance of at least the addresses of
/// `s` outside the two.
proof fn lemma_find_mergeable(r: Seq<Cidr>, s: Cidr, i: int, j: int, tolerance: int)
    requires
        is_disjoint_run(r),
        s.wf(),
        s.is_canonical(),
        0 <= i < j < r.len(),
        s.covers(r[i]),
        s.covers(r[j]),
        s.size() - r[i].size() - r[j].size() <= tolerance,
        0 <= tolerance,
    ensures
        exists|m: int| i <= m < j && #[trigger] tolerance_merge(r[m], r[m + 1], tolerance) is Some,
    decreases 32 - s.prefix_len,
{
    assert(r[i].wf() && r[j].wf() && r[i].is_canonical() && r[j].is_canonical());
    assert(r[i + 1].wf() && r[i + 1].is_canonical());
    lemma_cidr_bounds(r[i]);
    lemma_cidr_bounds(r[j]);
    lemma_cidr_bounds(s);
    lemma_run_ordered(r, i, j);
    assert(!r[i].covers(r[j]));
    if r[i].prefix_len <= s.prefix_len {
        assert(r[i].prefix_len == s.prefix_len);
        assert(r[i] == s);
    }
    if r[j].prefix_len <= s.prefix_len {
        assert(r[j].prefix_len == s.prefix_len);
        assert(r[j] == s);
        assert(r[j].covers(r[i]));
    }
    lemma_halves(s);
    let l = lower_half(s);
    let h = upper_half(s);
    lemma_in_half(s, r[i]);
    lemma_in_half(s, r[j]);
    if l.covers(r[i]) && l.covers(r[j]) {
        lemma_find_mergeable(r, l, i, j, tolerance);
    } else if h.covers(r[i]) && h.covers(r[j]) {
        lemma_find_mergeable(r, h, i, j, tolerance);
    } else {
        assert(l.covers(r[i]) && h.covers(r[j]));
        lemma_pow2_increases((32 - r[j].prefix_len) as nat, (32 - h.prefix_len) as nat);
        lemma_pow2_increases((32 - r[i].prefix_len) as nat, (32 - l.prefix_len) as nat);
        let n = r[i + 1];
        lemma_cidr_bounds(n);
        if i + 1 < j {
            lemma_run_ordered(r, i, i + 1);
            lemma_run_ordered(r, i + 1, j);
        }
        // the neighbour of r[i] lies in s as well
        if i + 1 < j {
            assert(!n.covers(r[j]));
            if n.prefix_len <= s.prefix_len {
                lemma_nested(s, n);
                lemma_nested(n, r[j]);
            }
            lemma_nested(s, n);
            lemma_in_half(s, n);
            lemma_pow2_increases((32 - n.prefix_len) as nat, (32 - l.prefix_len) as nat);
            if l.covers(n) {
                lemma_find_mergeable(r, l, i, i + 1, tolerance);
            } else {
                lemma_find_mergeable(r, h, i + 1, j, tolerance);
            }
        } else {
            lemma_covering_is_parent(s, r[i], r[j]);
            if exact_merge(r[i], r[j]) is None && tolerance == 0 {
                if r[i].prefix_len > l.prefix_len {
                    lemma_pow2_strictly_increases(
                        (32 - r[i].prefix_len) as nat,
                        (32 - l.prefix_len) as nat,
                    );
                }
                if r[j].prefix_len > h.prefix_len {
                    lemma_pow2_strictly_increases(
                        (32 - r[j].prefix_len) as nat,
                        (32 - h.prefix_len) as nat,
                    );
                }
                assert(r[i].prefix_len == l.prefix_len);
                assert(r[j].prefix_len == h.prefix_len);
                assert(r[i] == l);
                assert(r[j] == h);
                assert(exact_merge(l, h) is Some);
            }
            assert(tolerance_merge(r[i], r[i + 1], tolerance) is Some);
        }
    }
}

/// Some network of `r` covers `c`.
pub open spec fn covered_by(c: Cidr, r: Seq<Cidr>) -> bool {
    exists|k: int| 0 <= k < r.len() && (#[trigger] r[k]).covers(c)
}

/// Every network of `s` is covered by some network of `r`.
pub open spec fn all_covered_by(s: Seq<Cidr>, r: Seq<Cidr>) -> bool {
    forall|i: int| 0 <= i < s.len() ==> covered_by(#[trigger] s[i], r)
}

/// `c` covers some network of `base`.
pub open spec fn holds_some(c: Cidr, base: Seq<Cidr>) -> bool {
    exists|k: int| 0 <= k < base.len() && c.covers(#[trigger] base[k])
}

/// Every network of `s` covers some network of `base`.
pub open spec fn all_hold_some(s: Seq<Cidr>, base: Seq<Cidr>) -> bool {
    forall|i: int| 0 <= i < s.len() ==> holds_some(#[trigger] s[i], base)
}

proof fn lemma_member(n: Seq<Cidr>, s: Seq<Cidr>, i: int) -> (k: int)
    requires
        n.to_set() == s.to_set(),
        0 <= i < n.len(),
    ensures
        0 <= k < s.len(),
        s[k] == n[i],
{
    assert(n.to_set().contains(n[i]));
    assert(s.to_set().contains(n[i]));
    choose|k: int| 0 <= k < s.len() && s[k] == n[i]
}

/// A merge at a tolerance no larger than `tolerance` of two networks that lie in a
/// fixed point at `tolerance` yields a network that lies in it too.
proof fn lemma_merge_within(r: Seq<Cidr>, tolerance: int, a: Cidr, b: Cidr, lower: int)
    requires
        is_disjoint_run(r),
        no_mergeable_neighbours(r, tolerance),
        a.wf(),
        b.wf(),
        covered_by(a, r),
        covered_by(b, r),
        0 <= lower <= tolerance,
        tolerance_merge(a, b, lower) is Some,
    ensures
        covered_by(tolerance_merge(a, b, lower)->Some_0.0, r),
{
    let sn = tolerance_merge(a, b, lower)->Some_0.0;
    lemma_merge_result(a, b, lower);
    lemma_tolerance_merge_canonical(a, b, lower);
    let i = choose|k: int| 0 <= k < r.len() && (#[trigger] r[k]).covers(a);
    let j = choose|k: int| 0 <= k < r.len() && (#[trigger] r[k]).covers(b);
    assert(r[i].wf() && r[j].wf());
    lemma_cidr_bounds(a);
    lemma_cidr_bounds(b);
    lemma_cidr_bounds(sn);
    lemma_cidr_bounds(r[i]);
    lemma_cidr_bounds(r[j]);
    if i == j {
        assert(r[i].covers(sn));
    } else {
        // sn holds both r[i] and r[j]: were it inside one of them, that one would cover
        // the other's network as well
        if sn.prefix_len > r[i].prefix_len {
            lemma_share(r[i], sn, a.first());
            lemma_run_unique_cover(r, i, j, b);
        }
        lemma_share(sn, r[i], a.first());
        if sn.prefix_len > r[j].prefix_len {
            lemma_share(r[j], sn, b.first());
            lemma_run_unique_cover(r, i, j, a);
        }
        lemma_share(sn, r[j], b.first());
        let (lo, hi) = if i < j { (i, j) } else { (j, i) };
        lemma_run_ordered(r, lo, hi);
        if exact_merge(a, b) is Some {
            lemma_exact_merge(a, b);
        }
        assert(sn.size() - r[lo].size() - r[hi].size() <= tolerance);
        lemma_find_mergeable(r, sn, lo, hi, tolerance);
        let m = choose|m: int| lo <= m < hi && #[trigger] tolerance_merge(r[m], r[m + 1], tolerance) is Some;
        assert(tolerance_merge(r[m], r[m + 1], tolerance) is None);
    }
}

proof fn lemma_covered_trans(s1: Seq<Cidr>, s2: Seq<Cidr>, s3: Seq<Cidr>)
    requires
        all_covered_by(s1, s2),
        all_covered_by(s2, s3),
    ensures
        all_covered_by(s1, s3),
{
    assert forall|i: int| 0 <= i < s1.len() implies covered_by(#[trigger] s1[i], s3) by {
        let k = choose|k: int| 0 <= k < s2.len() && (#[trigger] s2[k]).covers(s1[i]);
        assert(covered_by(s2[k], s3));
        let m = choose|m: int| 0 <= m < s3.len() && (#[trigger] s3[m]).covers(s2[k]);
        assert(s3[m].covers(s1[i]));
    }
}

proof fn lemma_hold_trans(s1: Seq<Cidr>, s2: Seq<Cidr>, s3: Seq<Cidr>)
    requires
        all_hold_some(s3, s2),
        all_hold_some(s2, s1),
    ensures
        all_hold_some(s3, s1),
{
    assert forall|i: int| 0 <= i < s3.len() implies holds_some(#[trigger] s3[i], s1) by {
        assert(holds_some(s3[i], s2));
        let k = choose|k: int| 0 <= k < s2.len() && s3[i].covers(#[trigger] s2[k]);
        assert(holds_some(s2[k], s1));
        let m = choose|m: int| 0 <= m < s1.len() && s2[k].covers(#[trigger] s1[m]);
        assert(s3[i].covers(s1[m]));
    }
}

/// Each network of `s` lies in a network of the merge pass, and each network of
/// the pass holds a network of `s`.
proof fn lemma_merge_pass_relations(s: Seq<Cidr>, tolerance: int)
    requires
        all_wf(s),
    ensures
        all_covered_by(s, merge_pass(s, tolerance)),
        all_hold_some(merge_pass(s, tolerance), s),
    decreases s.len(),
{
    if s.len() > 0 {
        let m = merge_pass(s, tolerance);
        let skip: int = if s.len() >= 2 && tolerance_merge(s[0], s[1], tolerance) is Some {
            2
        } else {
            1
        };
        let rest = s.subrange(skip, s.len() as int);
        assert forall|i: int| 0 <= i < rest.len() implies #[trigger] rest[i].wf() by {
            assert(rest[i] == s[i + skip]);
        }
        lemma_merge_pass_relations(rest, tolerance);
        let tail = merge_pass(rest, tolerance);
        assert(m == seq![m[0]] + tail);
        if skip == 2 {
            lemma_merge_result(s[0], s[1], tolerance);
        }
        assert forall|i: int| 0 <= i < s.len() implies covered_by(#[trigger] s[i], m) by {
            if i < skip {
                assert(m[0].covers(s[i]));
            } else {
                assert(rest[i - skip] == s[i]);
                assert(covered_by(rest[i - skip], tail));
                let k = choose|k: int| 0 <= k < tail.len() && (#[trigger] tail[k]).covers(rest[i - skip]);
                assert(m[k + 1] == tail[k]);
            }
        }
        assert forall|i: int| 0 <= i < m.len() implies holds_some(#[trigger] m[i], s) by {
            if i == 0 {
                assert(m[0].covers(s[0]));
            } else {
                assert(tail[i - 1] == m[i]);
                assert(holds_some(tail[i - 1], rest));
                let k = choose|k: int| 0 <= k < rest.len() && tail[i - 1].covers(#[trigger] rest[k]);
                assert(rest[k] == s[k + skip]);
            }
        }
    }
}

/// A merge pass at a tolerance no larger than that of a fixed point `r` keeps
/// every network inside a network of `r`.
proof fn lemma_merge_pass_within(s: Seq<Cidr>, lower: int, r: Seq<Cidr>, tolerance: int)
    requires
        all_wf(s),
        all_covered_by(s, r),
        is_disjoint_run(r),
        no_mergeable_neighbours(r, tolerance),
        0 <= lower <= tolerance,
    ensures
        all_covered_by(merge_pass(s, lower), r),
    decreases s.len(),
{
    if s.len() > 0 {
        let m = merge_pass(s, lower);
        let skip: int = if s.len() >= 2 && tolerance_merge(s[0], s[1], lower) is Some {
            2
        } else {
            1
        };
        let rest = s.subrange(skip, s.len() as int);
        assert forall|i: int| 0 <= i < rest.len() implies #[trigger] rest[i].wf() && covered_by(rest[i], r) by {
            assert(rest[i] == s[i + skip]);
        }
        lemma_merge_pass_within(rest, lower, r, tolerance);
        let tail = merge_pass(rest, lower);
        assert(m == seq![m[0]] + tail);
        if skip == 2 {
            assert(covered_by(s[0], r) && covered_by(s[1], r));
            lemma_merge_within(r, tolerance, s[0], s[1], lower);
        }
        assert forall|i: int| 0 <= i < m.len() implies covered_by(#[trigger] m[i], r) by {
            if i == 0 {
                assert(covered_by(s[0], r));
            } else {
                assert(tail[i - 1] == m[i]);
            }
        }
    }
}

proof fn lemma_normalized_relations(s: Seq<Cidr>, r: Seq<Cidr>)
    ensures
        all_covered_by(s, normalized(s)),
        all_hold_some(normalized(s), s),
        all_covered_by(s, r) ==> all_covered_by(normalized(s), r),
        all_wf(s) ==> all_wf(normalized(s)),
{
    lemma_normalized(s);
    let n = normalized(s);
    assert forall|i: int| 0 <= i < s.len() implies covered_by(#[trigger] s[i], n) by {
        let k = lemma_member(s, n, i);
        assert(n[k].covers(s[i]));
    }
    assert forall|i: int| 0 <= i < n.len() implies holds_some(#[trigger] n[i], s) by {
        let k = lemma_member(n, s, i);
        assert(n[i].covers(s[k]));
    }
    if all_covered_by(s, r) {
        assert forall|i: int| 0 <= i < n.len() implies covered_by(#[trigger] n[i], r) by {
            let k = lemma_member(n, s, i);
            assert(covered_by(s[k], r));
        }
    }
    if all_wf(s) {
        lemma_normalized_len(s);
    }
}

proof fn lemma_eliminate_members(s: Seq<Cidr>, r: Seq<Cidr>)
    ensures
        all_hold_some(eliminate(s), s),
        all_covered_by(s, r) ==> all_covered_by(eliminate(s), r),
{
    lemma_eliminate(s);
    let e = eliminate(s);
    assert forall|i: int| 0 <= i < e.len() implies holds_some(#[trigger] e[i], s) by {
        assert(e.contains(e[i]));
        let k = choose|k: int| 0 <= k < s.len() && s[k] == e[i];
        assert(e[i].covers(s[k]));
    }
    if all_covered_by(s, r) {
        assert forall|i: int| 0 <= i < e.len() implies covered_by(#[trigger] e[i], r) by {
            assert(e.contains(e[i]));
            let k = choose|k: int| 0 <= k < s.len() && s[k] == e[i];
            assert(covered_by(s[k], r));
        }
    }
}

proof fn lemma_eliminate_covers(s: Seq<Cidr>)
    ensures
        all_covered_by(s, eliminate(s)),
    decreases s.len(),
{
    if s.len() > 0 {
        let e = eliminate(s);
        let d = s.drop_last();
        lemma_eliminate_covers(d);
        let kept = eliminate(d);
        assert forall|i: int| 0 <= i < s.len() implies covered_by(#[trigger] s[i], e) by {
            if i < s.len() - 1 {
                assert(d[i] == s[i]);
                assert(covered_by(d[i], kept));
                let k = choose|k: int| 0 <= k < kept.len() && (#[trigger] kept[k]).covers(d[i]);
                assert(e[k] == kept[k]);
            } else if kept.len() > 0 && kept.last().covers(s.last()) {
                assert(e[kept.len() - 1] == kept.last());
            } else {
                assert(e[kept.len() as int] == s.last());
                assert(e[kept.len() as int].covers(s[i]));
            }
        }
    }
}

proof fn lemma_eliminate_relations(s: Seq<Cidr>, r: Seq<Cidr>)
    ensures
        all_covered_by(s, eliminate(s)),
        all_hold_some(eliminate(s), s),
        all_covered_by(s, r) ==> all_covered_by(eliminate(s), r),
{
    lemma_eliminate_members(s, r);
    lemma_eliminate_covers(s);
}

proof fn lemma_round_relations(s: Seq<Cidr>, tolerance: int)
    requires
        all_wf(s),
    ensures
        all_covered_by(s, compaction_round(s, tolerance)),
        all_hold_some(compaction_round(s, tolerance), s),
{
    let m = merge_pass(s, tolerance);
    let n = normalized(m);
    let e = eliminate(n);
    lemma_merge_pass_relations(s, tolerance);
    lemma_normalized_relations(m, s);
    lemma_eliminate_relations(n, s);
    lemma_covered_trans(s, m, n);
    lemma_covered_trans(s, n, e);
    lemma_hold_trans(s, m, n);
    lemma_hold_trans(s, n, e);
}

proof fn lemma_fixed_point_relations(s: Seq<Cidr>, tolerance: int)
    requires
        strictly_sorted(s),
        all_wf(s),
        all_canonical(s),
    ensures
        all_covered_by(s, fixed_point(s, tolerance)),
        all_hold_some(fixed_point(s, tolerance), s),
    decreases s.len(),
{
    let next = compaction_round(s, tolerance);
    lemma_round_relations(s, tolerance);
    lemma_round_shape(s, tolerance);
    if next.len() < s.len() {
        lemma_fixed_point_relations(next, tolerance);
        lemma_covered_trans(s, next, fixed_point(next, tolerance));
        lemma_hold_trans(s, next, fixed_point(next, tolerance));
    }
}

proof fn lemma_fixed_point_within(s: Seq<Cidr>, lower: int, r: Seq<Cidr>, tolerance: int)
    requires
        strictly_sorted(s),
        all_wf(s),
        all_canonical(s),
        all_covered_by(s, r),
        is_disjoint_run(r),
        no_mergeable_neighbours(r, tolerance),
        0 <= lower <= tolerance,
    ensures
        all_covered_by(fixed_point(s, lower), r),
    decreases s.len(),
{
    let m = merge_pass(s, lower);
    let n = normalized(m);
    let next = compaction_round(s, lower);
    lemma_merge_pass_within(s, lower, r, tolerance);
    lemma_normalized_relations(m, r);
    lemma_eliminate_relations(n, r);
    lemma_round_shape(s, lower);
    if next.len() < s.len() {
        lemma_fixed_point_within(next, lower, r, tolerance);
    }
}

proof fn lemma_run_len(r: Seq<Cidr>)
    requires
        strictly_sorted(r),
    ensures
        r.to_set().len() == r.len(),
        r.to_set().finite(),
{
    assert(r.no_duplicates()) by {
        assert forall|i: int, j: int| 0 <= i < r.len() && 0 <= j < r.len() && i != j implies r[i]
            != r[j] by {
            if i < j {
                assert(sort_key(r[i]) < sort_key(r[j]));
            } else {
                assert(sort_key(r[j]) < sort_key(r[i]));
            }
        }
    }
    r.unique_seq_to_set();
    r.lemma_cardinality_of_set();
}

/// A network of `r1` inside `c`, when there is one.
pub open spec fn inner_of(c: Cidr, r1: Seq<Cidr>) -> Cidr {
    choose|b: Cidr| r1.contains(b) && c.covers(b)
}

proof fn lemma_inner_one(r1: Seq<Cidr>, r2: Seq<Cidr>, s0: Seq<Cidr>, i: int)
    requires
        is_disjoint_run(r2),
        all_wf(s0),
        0 <= i < r2.len(),
        holds_some(r2[i], s0),
        all_covered_by(s0, r1),
        all_covered_by(r1, r2),
    ensures
        r1.contains(inner_of(r2[i], r1)),
        r2[i].covers(inner_of(r2[i], r1)),
{
    let k = choose|k: int| 0 <= k < s0.len() && r2[i].covers(#[trigger] s0[k]);
    assert(covered_by(s0[k], r1));
    let m = choose|m: int| 0 <= m < r1.len() && (#[trigger] r1[m]).covers(s0[k]);
    assert(covered_by(r1[m], r2));
    let n = choose|n: int| 0 <= n < r2.len() && (#[trigger] r2[n]).covers(r1[m]);
    assert(s0[k].wf());
    lemma_run_unique_cover(r2, i, n, s0[k]);
    let b = r1[m];
    assert(r1.contains(b));
    assert(r2[i].covers(b));
    assert(r1.contains(b) && r2[i].covers(b));
    let c = inner_of(r2[i], r1);
    assert(r1.contains(c) && r2[i].covers(c));
}

proof fn lemma_inner_exists(r1: Seq<Cidr>, r2: Seq<Cidr>, s0: Seq<Cidr>)
    requires
        is_disjoint_run(r2),
        all_wf(s0),
        all_hold_some(r2, s0),
        all_covered_by(s0, r1),
        all_covered_by(r1, r2),
    ensures
        forall|i: int| 0 <= i < r2.len() ==> r1.contains(#[trigger] inner_of(r2[i], r1))
            && r2[i].covers(inner_of(r2[i], r1)),
{
    assert forall|i: int| 0 <= i < r2.len() implies r1.contains(#[trigger] inner_of(r2[i], r1))
        && r2[i].covers(inner_of(r2[i], r1)) by {
        assert(holds_some(r2[i], s0));
        lemma_inner_one(r1, r2, s0, i);
    }
}

proof fn lemma_count_by_inner(r1: Seq<Cidr>, r2: Seq<Cidr>)
    requires
        is_disjoint_run(r1),
        is_disjoint_run(r2),
        forall|i: int| 0 <= i < r2.len() ==> r1.contains(#[trigger] inner_of(r2[i], r1))
            && r2[i].covers(inner_of(r2[i], r1)),
    ensures
        r2.len() <= r1.len(),
{
    let x = r2.to_set();
    let y = r1.to_set();
    let f = |c: Cidr| inner_of(c, r1);
    assert(injective_on(f, x)) by {
        assert forall|c1: Cidr, c2: Cidr| x.contains(c1) && x.contains(c2) && #[trigger] f(c1) == #[trigger] f(c2) implies c1 == c2 by {
            let i = choose|i: int| 0 <= i < r2.len() && r2[i] == c1;
            let j = choose|j: int| 0 <= j < r2.len() && r2[j] == c2;
            let b = inner_of(c1, r1);
            assert(r1.contains(inner_of(r2[i], r1)));
            let m = choose|m: int| 0 <= m < r1.len() && r1[m] == b;
            assert(r1[m].wf());
            assert(r2[j].covers(inner_of(r2[j], r1)));
            lemma_run_unique_cover(r2, i, j, b);
        }
    }
    lemma_run_len(r1);
    lemma_run_len(r2);
    lemma_map_size(x, x.map(f), f);
    assert(x.map(f).subset_of(y)) by {
        assert forall|b: Cidr| x.map(f).contains(b) implies y.contains(b) by {
            let c = choose|c: Cidr| x.contains(c) && f(c) == b;
            let i = choose|i: int| 0 <= i < r2.len() && r2[i] == c;
            assert(r1.contains(inner_of(r2[i], r1)));
        }
    }
    lemma_len_subset(x.map(f), y);
}

/// A larger tolerance never gives more networks: for `t1 <= t2`, compacting at
/// `t2` yields at most as many networks as compacting at `t1`.
pub proof fn lemma_compact_tolerance_monotone(nets: Seq<Cidr>, t1: int, t2: int)
    requires
        all_wf(nets),
        0 <= t1 <= t2,
    ensures
        compact(nets, t2).len() <= compact(nets, t1).len(),
{
    let s0 = normalized(canonical_all(nets));
    let r1 = compact(nets, t1);
    let r2 = compact(nets, t2);
    lemma_compact_is_fixed_point(nets, t1);
    lemma_compact_is_fixed_point(nets, t2);
    lemma_start_shape(nets);
    lemma_fixed_point_relations(s0, t1);
    lemma_fixed_point_relations(s0, t2);
    lemma_fixed_point_within(s0, t1, r2, t2);
    lemma_inner_exists(r1, r2, s0);
    lemma_count_by_inner(r1, r2);
}

} // verus!
