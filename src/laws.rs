//! What holds of every compaction, proved over the spec functions of `compact`.

use crate::cidr::{lemma_canonical, lemma_cidr_bounds, lemma_nested, Cidr};
use crate::compact::{
    canonical_all, compact, compaction_round, fixed_point, lemma_eliminate, lemma_merge_pass_len,
    lemma_normalized_len, merge_pass,
};
use crate::merge::{exact_merge, lemma_exact_merge, lemma_tolerance_merge_canonical, tolerance_merge};
use crate::normalize::{all_wf, eliminate, lemma_normalized, normalized, sort_key, strictly_sorted};
use vstd::prelude::*;

verus! {

broadcast use vstd::seq_lib::group_to_multiset_ensures;

/// Every network of `s` has its host bits cleared.
pub open spec fn all_canonical(s: Seq<Cidr>) -> bool {
    forall|i: int| 0 <= i < s.len() ==> #[trigger] s[i].is_canonical()
}

/// No two neighbours of `s` would still be merged at `tolerance`.
pub open spec fn no_mergeable_neighbours(s: Seq<Cidr>, tolerance: int) -> bool {
    forall|i: int| 0 <= i < s.len() - 1 ==> #[trigger] tolerance_merge(s[i], s[i + 1], tolerance) is None
}

/// No network of `s` covers another one of `s`.
pub open spec fn no_covered(s: Seq<Cidr>) -> bool {
    forall|i: int, j: int| 0 <= i < s.len() && 0 <= j < s.len() && i != j ==> !(#[trigger] s[i]).covers(#[trigger] s[j])
}

/// Some network of `s` holds the address `a`.
pub open spec fn covers_address(s: Seq<Cidr>, a: int) -> bool {
    exists|i: int| 0 <= i < s.len() && (#[trigger] s[i]).contains(a)
}

proof fn lemma_merge_pass_canonical(s: Seq<Cidr>, tolerance: int)
    requires
        all_wf(s),
        all_canonical(s),
    ensures
        all_wf(merge_pass(s, tolerance)),
        all_canonical(merge_pass(s, tolerance)),
    decreases s.len(),
{
    if s.len() > 0 {
        let m = merge_pass(s, tolerance);
        if s.len() >= 2 && tolerance_merge(s[0], s[1], tolerance) is Some {
            let rest = s.subrange(2, s.len() as int);
            assert forall|i: int| #![trigger rest[i]] 0 <= i < rest.len() implies rest[i].wf() && rest[i].is_canonical() by {
                assert(rest[i] == s[i + 2]);
            }
            lemma_merge_pass_canonical(rest, tolerance);
            lemma_tolerance_merge_canonical(s[0], s[1], tolerance);
            assert forall|i: int| #![trigger m[i]] 0 <= i < m.len() implies m[i].wf() && m[i].is_canonical() by {
                if i > 0 {
                    assert(m[i] == merge_pass(rest, tolerance)[i - 1]);
                }
            }
        } else {
            let rest = s.subrange(1, s.len() as int);
            assert forall|i: int| #![trigger rest[i]] 0 <= i < rest.len() implies rest[i].wf() && rest[i].is_canonical() by {
                assert(rest[i] == s[i + 1]);
            }
            lemma_merge_pass_canonical(rest, tolerance);
            assert forall|i: int| #![trigger m[i]] 0 <= i < m.len() implies m[i].wf() && m[i].is_canonical() by {
                if i > 0 {
                    assert(m[i] == merge_pass(rest, tolerance)[i - 1]);
                }
            }
        }
    }
}

proof fn lemma_merge_pass_fixed(s: Seq<Cidr>, tolerance: int)
    requires
        merge_pass(s, tolerance).len() == s.len(),
    ensures
        no_mergeable_neighbours(s, tolerance),
    decreases s.len(),
{
    if s.len() >= 2 {
        if tolerance_merge(s[0], s[1], tolerance) is Some {
            lemma_merge_pass_len(s.subrange(2, s.len() as int), tolerance);
        }
        let rest = s.subrange(1, s.len() as int);
        lemma_merge_pass_fixed(rest, tolerance);
        assert forall|i: int| 0 <= i < s.len() - 1 implies #[trigger] tolerance_merge(
            s[i],
            s[i + 1],
            tolerance,
        ) is None by {
            if i > 0 {
                assert(rest[i - 1] == s[i]);
                assert(rest[i] == s[i + 1]);
                assert(tolerance_merge(rest[i - 1], rest[i - 1 + 1], tolerance) is None);
            }
        }
    }
}

proof fn lemma_eliminate_fixed(s: Seq<Cidr>)
    requires
        eliminate(s).len() == s.len(),
    ensures
        eliminate(s) == s,
        forall|i: int| 0 < i < s.len() ==> !(#[trigger] s[i - 1]).covers(s[i]),
    decreases s.len(),
{
    if s.len() > 0 {
        let d = s.drop_last();
        lemma_eliminate(d);
        let kept = eliminate(d);
        assert(kept.len() == d.len());
        lemma_eliminate_fixed(d);
        assert(eliminate(s) =~= s);
        assert forall|i: int| 0 < i < s.len() implies !(#[trigger] s[i - 1]).covers(s[i]) by {
            if i < s.len() - 1 {
                assert(d[i - 1] == s[i - 1]);
                assert(d[i] == s[i]);
            }
        }
    }
}

proof fn lemma_sort_key_addr(a: Cidr, b: Cidr)
    requires
        sort_key(a) <= sort_key(b),
    ensures
        a.addr <= b.addr,
        a.addr == b.addr ==> a.prefix_len <= b.prefix_len,
{
}

proof fn lemma_no_covered(s: Seq<Cidr>)
    requires
        strictly_sorted(s),
        all_wf(s),
        all_canonical(s),
        forall|i: int| 0 < i < s.len() ==> !(#[trigger] s[i - 1]).covers(s[i]),
    ensures
        no_covered(s),
{
    assert forall|i: int, j: int| 0 <= i < s.len() && 0 <= j < s.len() && i != j implies !(
    #[trigger] s[i]).covers(#[trigger] s[j]) by {
        if s[i].covers(s[j]) {
            if i < j {
                let n = s[i + 1];
                assert(s[i].is_canonical() && n.is_canonical() && s[j].is_canonical());
                assert(s[i].wf() && n.wf() && s[j].wf());
                lemma_cidr_bounds(s[j]);
                assert(sort_key(s[i]) < sort_key(n));
                lemma_sort_key_addr(s[i], n);
                if i + 1 < j {
                    assert(sort_key(n) < sort_key(s[j]));
                }
                lemma_sort_key_addr(n, s[j]);
                assert(!s[i + 1 - 1].covers(s[i + 1]));
                lemma_nested(s[i], n);
            } else {
                assert(s[i].is_canonical() && s[j].is_canonical());
                assert(sort_key(s[j]) < sort_key(s[i]));
                lemma_sort_key_addr(s[j], s[i]);
            }
        }
    }
}

pub proof fn lemma_round_shape(s: Seq<Cidr>, tolerance: int)
    requires
        strictly_sorted(s),
        all_wf(s),
        all_canonical(s),
    ensures
        strictly_sorted(compaction_round(s, tolerance)),
        all_wf(compaction_round(s, tolerance)),
        all_canonical(compaction_round(s, tolerance)),
        compaction_round(s, tolerance).len() <= s.len(),
        compaction_round(s, tolerance).len() == s.len() ==> merge_pass(s, tolerance) == s
            && eliminate(s) == s,
{
    let m = merge_pass(s, tolerance);
    lemma_merge_pass_canonical(s, tolerance);
    lemma_merge_pass_len(s, tolerance);
    let n = normalized(m);
    lemma_normalized(m);
    lemma_normalized_len(m);
    assert forall|i: int| 0 <= i < n.len() implies #[trigger] n[i].is_canonical() by {
        assert(n.to_set().contains(n[i]));
        assert(m.to_set().contains(n[i]));
        let k = choose|k: int| 0 <= k < m.len() && m[k] == n[i];
    }
    let e = eliminate(n);
    lemma_eliminate(n);
    assert forall|i: int| 0 <= i < e.len() implies #[trigger] e[i].is_canonical() by {
        assert(e.contains(e[i]));
        let k = choose|k: int| 0 <= k < n.len() && n[k] == e[i];
    }
    if e.len() == s.len() {
        lemma_normalized_len(s);
        assert(m == s);
        lemma_eliminate_fixed(s);
    }
}

proof fn lemma_fixed_point_shape(s: Seq<Cidr>, tolerance: int)
    requires
        strictly_sorted(s),
        all_wf(s),
        all_canonical(s),
    ensures
        strictly_sorted(fixed_point(s, tolerance)),
        all_wf(fixed_point(s, tolerance)),
        all_canonical(fixed_point(s, tolerance)),
        merge_pass(fixed_point(s, tolerance), tolerance) == fixed_point(s, tolerance),
        eliminate(fixed_point(s, tolerance)) == fixed_point(s, tolerance),
    decreases s.len(),
{
    let next = compaction_round(s, tolerance);
    lemma_round_shape(s, tolerance);
    if next.len() < s.len() {
        lemma_fixed_point_shape(next, tolerance);
    } else {
        lemma_normalized_len(s);
        assert(next == s);
    }
}

/// The canonical forms of valid networks, normalised, are strictly increasing,
/// valid and canonical.
pub proof fn lemma_start_shape(nets: Seq<Cidr>)
    requires
        all_wf(nets),
    ensures
        strictly_sorted(normalized(canonical_all(nets))),
        all_wf(normalized(canonical_all(nets))),
        all_canonical(normalized(canonical_all(nets))),
{
    let c = canonical_all(nets);
    let n = normalized(c);
    lemma_normalized(c);
    assert forall|i: int| #![trigger n[i]] 0 <= i < n.len() implies n[i].wf() && n[i].is_canonical() by {
        assert(n.to_set().contains(n[i]));
        assert(c.to_set().contains(n[i]));
        let k = choose|k: int| 0 <= k < c.len() && c[k] == n[i];
        assert(nets[k].wf());
        lemma_canonical(nets[k]);
    }
}

/// What every result of the compactor satisfies: strictly increasing by address,
/// then prefix length (hence free of duplicates), valid and canonical networks, no
/// network covering another, and no two neighbours that the tolerance merge would
/// still accept.
pub proof fn lemma_compact_is_fixed_point(nets: Seq<Cidr>, tolerance: int)
    requires
        all_wf(nets),
    ensures
        strictly_sorted(compact(nets, tolerance)),
        all_wf(compact(nets, tolerance)),
        all_canonical(compact(nets, tolerance)),
        no_covered(compact(nets, tolerance)),
        no_mergeable_neighbours(compact(nets, tolerance), tolerance),
{
    let s = normalized(canonical_all(nets));
    lemma_start_shape(nets);
    lemma_fixed_point_shape(s, tolerance);
    let r = compact(nets, tolerance);
    lemma_merge_pass_fixed(r, tolerance);
    lemma_eliminate_fixed(r);
    lemma_no_covered(r);
}

/// Compacting a second time, at the same tolerance, changes nothing.
pub proof fn lemma_compact_idempotent(nets: Seq<Cidr>, tolerance: int)
    requires
        all_wf(nets),
    ensures
        compact(compact(nets, tolerance), tolerance) == compact(nets, tolerance),
{
    let s = normalized(canonical_all(nets));
    lemma_start_shape(nets);
    lemma_fixed_point_shape(s, tolerance);
    let r = compact(nets, tolerance);
    assert forall|i: int| 0 <= i < r.len() implies #[trigger] canonical_all(r)[i] == r[i] by {
        assert(r[i].is_canonical());
    }
    assert(canonical_all(r) =~= r);
    lemma_normalized_len(r);
    assert(compaction_round(r, tolerance) == r);
}

/// The order in which the networks come, and how often each comes, do not change
/// the result: inputs that are permutations of each other compact alike.
pub proof fn lemma_compact_permutation(x: Seq<Cidr>, y: Seq<Cidr>, tolerance: int)
    requires
        x.to_multiset() == y.to_multiset(),
    ensures
        compact(x, tolerance) == compact(y, tolerance),
{
    assert forall|c: Cidr| canonical_all(x).contains(c) implies canonical_all(y).contains(c) by {
        let k = choose|k: int| 0 <= k < canonical_all(x).len() && canonical_all(x)[k] == c;
        assert(x.contains(x[k]));
        assert(x.to_multiset().count(x[k]) > 0);
        assert(y.contains(x[k]));
        let m = choose|m: int| 0 <= m < y.len() && y[m] == x[k];
        assert(canonical_all(y)[m] == c);
    }
    assert forall|c: Cidr| canonical_all(y).contains(c) implies canonical_all(x).contains(c) by {
        let k = choose|k: int| 0 <= k < canonical_all(y).len() && canonical_all(y)[k] == c;
        assert(y.contains(y[k]));
        assert(y.to_multiset().count(y[k]) > 0);
        assert(x.contains(y[k]));
        let m = choose|m: int| 0 <= m < x.len() && x[m] == y[k];
        assert(canonical_all(x)[m] == c);
    }
    assert(canonical_all(x).to_set() =~= canonical_all(y).to_set());
}

proof fn lemma_merge_pass_coverage(s: Seq<Cidr>, a: int)
    requires
        all_wf(s),
    ensures
        covers_address(merge_pass(s, 0), a) == covers_address(s, a),
    decreases s.len(),
{
    if s.len() > 0 {
        let m = merge_pass(s, 0);
        let skip: int = if s.len() >= 2 && tolerance_merge(s[0], s[1], 0) is Some { 2 } else { 1 };
        let rest = s.subrange(skip, s.len() as int);
        assert forall|i: int| 0 <= i < rest.len() implies #[trigger] rest[i].wf() by {
            assert(rest[i] == s[i + skip]);
        }
        lemma_merge_pass_coverage(rest, a);
        let tail = merge_pass(rest, 0);
        assert(m == seq![m[0]] + tail);
        if skip == 2 {
            lemma_exact_merge(s[0], s[1]);
            assert(m[0] == exact_merge(s[0], s[1])->Some_0);
        }
        if covers_address(m, a) {
            let i = choose|i: int| 0 <= i < m.len() && (#[trigger] m[i]).contains(a);
            if i > 0 {
                assert(tail[i - 1] == m[i]);
                assert(covers_address(rest, a));
                let k = choose|k: int| 0 <= k < rest.len() && (#[trigger] rest[k]).contains(a);
                assert(s[k + skip] == rest[k]);
            } else if skip == 2 {
                if s[0].contains(a) {
                    assert(s[0].contains(a));
                } else {
                    assert(s[1].contains(a));
                }
            } else {
                assert(s[0].contains(a));
            }
        }
        if covers_address(s, a) {
            let k = choose|k: int| 0 <= k < s.len() && (#[trigger] s[k]).contains(a);
            if k < skip {
                assert(m[0].contains(a));
            } else {
                assert(rest[k - skip] == s[k]);
                assert(covers_address(rest, a));
                let i = choose|i: int| 0 <= i < tail.len() && (#[trigger] tail[i]).contains(a);
                assert(m[i + 1] == tail[i]);
            }
        }
    }
}

proof fn lemma_eliminate_coverage(s: Seq<Cidr>, a: int)
    requires
        all_wf(s),
    ensures
        covers_address(eliminate(s), a) == covers_address(s, a),
    decreases s.len(),
{
    if s.len() > 0 {
        let d = s.drop_last();
        lemma_eliminate_coverage(d, a);
        lemma_eliminate(d);
        let kept = eliminate(d);
        let e = eliminate(s);
        if covers_address(e, a) {
            let i = choose|i: int| 0 <= i < e.len() && (#[trigger] e[i]).contains(a);
            if i < kept.len() {
                assert(kept[i] == e[i]);
                assert(covers_address(kept, a));
                let k = choose|k: int| 0 <= k < d.len() && (#[trigger] d[k]).contains(a);
                assert(s[k] == d[k]);
            } else {
                assert(s[s.len() - 1] == e[i]);
            }
        }
        if covers_address(s, a) {
            let k = choose|k: int| 0 <= k < s.len() && (#[trigger] s[k]).contains(a);
            if k < s.len() - 1 {
                assert(d[k] == s[k]);
                assert(covers_address(d, a));
                let i = choose|i: int| 0 <= i < kept.len() && (#[trigger] kept[i]).contains(a);
                assert(e[i] == kept[i]);
            } else if kept.len() > 0 && kept.last().covers(s.last()) {
                assert(e[kept.len() - 1] == kept.last());
                assert(e[kept.len() - 1].contains(a));
            } else {
                assert(e[kept.len() as int] == s.last());
            }
        }
    }
}

proof fn lemma_same_set_coverage(s1: Seq<Cidr>, s2: Seq<Cidr>, a: int)
    requires
        s1.to_set() == s2.to_set(),
    ensures
        covers_address(s1, a) == covers_address(s2, a),
{
    if covers_address(s1, a) {
        let i = choose|i: int| 0 <= i < s1.len() && (#[trigger] s1[i]).contains(a);
        assert(s1.to_set().contains(s1[i]));
        assert(s2.to_set().contains(s1[i]));
        let k = choose|k: int| 0 <= k < s2.len() && s2[k] == s1[i];
        assert(s2[k].contains(a));
    }
    if covers_address(s2, a) {
        let i = choose|i: int| 0 <= i < s2.len() && (#[trigger] s2[i]).contains(a);
        assert(s2.to_set().contains(s2[i]));
        assert(s1.to_set().contains(s2[i]));
        let k = choose|k: int| 0 <= k < s1.len() && s1[k] == s2[i];
        assert(s1[k].contains(a));
    }
}

proof fn lemma_fixed_point_coverage(s: Seq<Cidr>, a: int)
    requires
        strictly_sorted(s),
        all_wf(s),
        all_canonical(s),
    ensures
        covers_address(fixed_point(s, 0), a) == covers_address(s, a),
    decreases s.len(),
{
    let m = merge_pass(s, 0);
    lemma_merge_pass_canonical(s, 0);
    lemma_merge_pass_coverage(s, a);
    let n = normalized(m);
    lemma_normalized(m);
    lemma_normalized_len(m);
    lemma_same_set_coverage(n, m, a);
    lemma_eliminate_coverage(n, a);
    lemma_round_shape(s, 0);
    let next = compaction_round(s, 0);
    if next.len() < s.len() {
        lemma_fixed_point_coverage(next, a);
    }
}

/// At tolerance 0 the result holds exactly the addresses that the input holds:
/// no address is gained and none is lost.
pub proof fn lemma_compact_keeps_addresses(nets: Seq<Cidr>)
    requires
        all_wf(nets),
    ensures
        forall|a: int| covers_address(compact(nets, 0), a) == covers_address(nets, a),
{
    let c = canonical_all(nets);
    let s = normalized(c);
    lemma_start_shape(nets);
    lemma_normalized(c);
    assert forall|a: int| covers_address(compact(nets, 0), a) == covers_address(nets, a) by {
        lemma_fixed_point_coverage(s, a);
        lemma_same_set_coverage(s, c, a);
        if covers_address(c, a) {
            let i = choose|i: int| 0 <= i < c.len() && (#[trigger] c[i]).contains(a);
            lemma_canonical(nets[i]);
            assert(nets[i].contains(a));
        }
        if covers_address(nets, a) {
            let i = choose|i: int| 0 <= i < nets.len() && (#[trigger] nets[i]).contains(a);
            lemma_canonical(nets[i]);
            assert(c[i].contains(a));
        }
    }
}

} // verus!
