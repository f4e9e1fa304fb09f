//! The compactor: merge passes, normalisation and removal of covered networks,
//! repeated until a round changes nothing.

use crate::cidr::Cidr;
use crate::laws::{
    all_canonical, lemma_compact_is_fixed_point, no_covered, no_mergeable_neighbours,
};
use crate::merge::{tolerance_merge, try_merge_with_tolerance};
use crate::normalize::{
    all_wf, eliminate, lemma_normalized, normalized, remove_covered_nets, sort_and_dedup,
    sort_key, strictly_sorted,
};
use vstd::prelude::*;

verus! {

/// Every network of `s` written with its host bits cleared.
pub open spec fn canonical_all(s: Seq<Cidr>) -> Seq<Cidr> {
    s.map_values(|c: Cidr| c.canonical())
}

/// One merge pass: left to right, each network is merged with the next one when
/// the tolerance merge accepts the pair (both are then consumed), else kept.
pub open spec fn merge_pass(s: Seq<Cidr>, tolerance: int) -> Seq<Cidr>
    decreases s.len(),
{
    if s.len() == 0 {
        s
    } else if s.len() >= 2 && tolerance_merge(s[0], s[1], tolerance) is Some {
        seq![tolerance_merge(s[0], s[1], tolerance)->Some_0.0] + merge_pass(
            s.subrange(2, s.len() as int),
            tolerance,
        )
    } else {
        seq![s[0]] + merge_pass(s.subrange(1, s.len() as int), tolerance)
    }
}

/// One round of the compactor: a merge pass, then normalisation, then removal of
/// covered networks.
pub open spec fn compaction_round(s: Seq<Cidr>, tolerance: int) -> Seq<Cidr> {
    eliminate(normalized(merge_pass(s, tolerance)))
}

/// Rounds repeated until one leaves the sequence as it found it. A round that
/// changes anything shortens the sequence, so one that keeps the length is the last.
pub open spec fn fixed_point(s: Seq<Cidr>, tolerance: int) -> Seq<Cidr>
    decreases s.len(),
{
    let next = compaction_round(s, tolerance);
    if next.len() < s.len() {
        fixed_point(next, tolerance)
    } else {
        next
    }
}

/// What `merge_ipv4_nets` returns: the canonical forms of `nets`, normalised, then
/// driven to a fixed point of merge and removal rounds.
pub open spec fn compact(nets: Seq<Cidr>, tolerance: int) -> Seq<Cidr> {
    fixed_point(normalized(canonical_all(nets)), tolerance)
}

pub proof fn lemma_merge_pass_len(s: Seq<Cidr>, tolerance: int)
    ensures
        merge_pass(s, tolerance).len() <= s.len(),
        merge_pass(s, tolerance).len() == s.len() ==> merge_pass(s, tolerance) == s,
    decreases s.len(),
{
    if s.len() > 0 {
        if s.len() >= 2 && tolerance_merge(s[0], s[1], tolerance) is Some {
            lemma_merge_pass_len(s.subrange(2, s.len() as int), tolerance);
        } else {
            let rest = s.subrange(1, s.len() as int);
            lemma_merge_pass_len(rest, tolerance);
            if merge_pass(s, tolerance).len() == s.len() {
                assert(s =~= seq![s[0]] + rest);
            }
        }
    }
}

pub proof fn lemma_eliminate(s: Seq<Cidr>)
    ensures
        eliminate(s).len() <= s.len(),
        forall|c: Cidr| #[trigger] eliminate(s).contains(c) ==> s.contains(c),
        strictly_sorted(s) ==> strictly_sorted(eliminate(s)),
        all_wf(s) ==> all_wf(eliminate(s)),
    decreases s.len(),
{
    if s.len() > 0 {
        let d = s.drop_last();
        lemma_eliminate(d);
        let kept = eliminate(d);
        assert forall|c: Cidr| eliminate(s).contains(c) implies s.contains(c) by {
            let k = choose|k: int| 0 <= k < eliminate(s).len() && eliminate(s)[k] == c;
            if k < kept.len() {
                assert(kept[k] == c);
                assert(kept.contains(c));
                let m = choose|m: int| 0 <= m < d.len() && d[m] == c;
                assert(s[m] == c);
            } else {
                assert(s[s.len() - 1] == c);
            }
        }
        if strictly_sorted(s) {
            assert(strictly_sorted(d));
            assert forall|i: int, j: int| 0 <= i < j < eliminate(s).len() implies sort_key(
                #[trigger] eliminate(s)[i],
            ) < sort_key(#[trigger] eliminate(s)[j]) by {
                if j >= kept.len() {
                    assert(kept[i] == eliminate(s)[i]);
                    assert(kept.contains(kept[i]));
                    let m = choose|m: int| 0 <= m < d.len() && d[m] == kept[i];
                    assert(s[m] == kept[i]);
                }
            }
        }
        if all_wf(s) {
            assert forall|i: int| 0 <= i < eliminate(s).len() implies #[trigger] eliminate(
                s,
            )[i].wf() by {
                if i < kept.len() {
                    assert(kept[i] == eliminate(s)[i]);
                } else {
                    assert(s[s.len() - 1] == eliminate(s)[i]);
                }
            }
        }
    }
}

/// Normalising never lengthens a sequence, and leaves a strictly increasing one as it is.
pub proof fn lemma_normalized_len(s: Seq<Cidr>)
    ensures
        normalized(s).len() <= s.len(),
        strictly_sorted(s) ==> normalized(s) == s,
        all_wf(s) ==> all_wf(normalized(s)),
{
    lemma_normalized(s);
    let n = normalized(s);
    assert(n.no_duplicates()) by {
        assert forall|i: int, j: int| 0 <= i < n.len() && 0 <= j < n.len() && i != j implies n[i]
            != n[j] by {
            if i < j {
                assert(sort_key(n[i]) < sort_key(n[j]));
            } else {
                assert(sort_key(n[j]) < sort_key(n[i]));
            }
        }
    }
    n.unique_seq_to_set();
    s.lemma_cardinality_of_set();
    if all_wf(s) {
        assert forall|i: int| 0 <= i < n.len() implies #[trigger] n[i].wf() by {
            assert(n.to_set().contains(n[i]));
            assert(s.to_set().contains(n[i]));
            let m = choose|m: int| 0 <= m < s.len() && s[m] == n[i];
        }
    }
}

/// Normalizes, deduplicates and merges IPv4 networks into a compact covering set.
///
/// Networks are first written with their host bits cleared. Neighbours in sorted
/// order merge losslessly when they are the two halves of one block; with a
/// positive `tolerance`, also into their smallest covering block when that adds at
/// most `tolerance` addresses. Networks covered by another are dropped. Rounds
/// repeat until one changes nothing.
pub fn merge_ipv4_nets(nets: Vec<Cidr>, tolerance: u64) -> (r: Vec<Cidr>)
    requires
        all_wf(nets@),
    ensures
        r@ == compact(nets@, tolerance as int),
        strictly_sorted(r@),
        all_wf(r@),
        all_canonical(r@),
        no_covered(r@),
        no_mergeable_neighbours(r@, tolerance as int),
{
    let mut working: Vec<Cidr> = Vec::with_capacity(nets.len());
    let mut i: usize = 0;
    while i < nets.len()
        invariant
            i <= nets@.len(),
            all_wf(nets@),
            working@ == canonical_all(nets@).subrange(0, i as int),
        decreases nets@.len() - i,
    {
        working.push(nets[i].trunc());
        i = i + 1;
    }
    assert(working@ == canonical_all(nets@));
    sort_and_dedup(&mut working);
    proof {
        lemma_normalized(canonical_all(nets@));
        assert forall|k: int| 0 <= k < working@.len() implies #[trigger] working@[k].wf() by {
            assert(working@.to_set().contains(working@[k]));
            assert(canonical_all(nets@).contains(working@[k]));
            let m = choose|m: int|
                0 <= m < canonical_all(nets@).len() && canonical_all(nets@)[m] == working@[k];
            assert(nets@[m].wf());
        }
    }
    loop
        invariant
            all_wf(nets@),
            all_wf(working@),
            strictly_sorted(working@),
            fixed_point(working@, tolerance as int) == compact(nets@, tolerance as int),
        decreases working@.len(),
    {
        let ghost current = working@;
        let mut changed = false;
        let mut merged: Vec<Cidr> = Vec::new();
        let mut idx: usize = 0;
        proof {
            assert(current.subrange(0, current.len() as int) =~= current);
            assert(merged@ + merge_pass(current, tolerance as int) =~= merge_pass(
                current,
                tolerance as int,
            ));
        }
        while idx < working.len()
            invariant
                working@ == current,
                all_wf(current),
                idx <= current.len(),
                all_wf(merged@),
                merged@.len() <= idx,
                changed <==> merged@.len() < idx,
                merged@ + merge_pass(current.subrange(idx as int, current.len() as int), tolerance as int)
                    == merge_pass(current, tolerance as int),
            decreases current.len() - idx,
        {
            let ghost rest = current.subrange(idx as int, current.len() as int);
            if idx + 1 < working.len() {
                if let Some((supernet, _extra_addrs)) = try_merge_with_tolerance(
                    &working[idx],
                    &working[idx + 1],
                    tolerance,
                ) {
                    proof {
                        assert(rest[0] == current[idx as int]);
                        assert(rest[1] == current[idx + 1]);
                        assert(rest.subrange(2, rest.len() as int) =~= current.subrange(
                            idx + 2,
                            current.len() as int,
                        ));
                        assert(merged@.push(supernet) + merge_pass(
                            current.subrange(idx + 2, current.len() as int),
                            tolerance as int,
                        ) =~= merged@ + merge_pass(rest, tolerance as int));
                    }
                    merged.push(supernet);
                    changed = true;
                    idx = idx + 2;
                    continue;
                }
            }
            proof {
                assert(rest[0] == current[idx as int]);
                if idx + 1 < current.len() {
                    assert(rest[1] == current[idx + 1]);
                }
                assert(rest.subrange(1, rest.len() as int) =~= current.subrange(
                    idx + 1,
                    current.len() as int,
                ));
                assert(merged@.push(current[idx as int]) + merge_pass(
                    current.subrange(idx + 1, current.len() as int),
                    tolerance as int,
                ) =~= merged@ + merge_pass(rest, tolerance as int));
            }
            merged.push(working[idx]);
            idx = idx + 1;
        }
        proof {
            assert(current.subrange(current.len() as int, current.len() as int) =~= Seq::<
                Cidr,
            >::empty());
            assert(merged@ =~= merge_pass(current, tolerance as int));
            lemma_merge_pass_len(current, tolerance as int);
            lemma_normalized_len(merged@);
            lemma_normalized_len(current);
        }
        let ghost merged_view = merged@;
        sort_and_dedup(&mut merged);
        let (compacted, removed_subnets) = remove_covered_nets(merged);
        proof {
            lemma_eliminate(normalized(merged_view));
            lemma_normalized(merged_view);
        }
        changed = changed || removed_subnets;
        if !changed {
            proof {
                lemma_compact_is_fixed_point(nets@, tolerance as int);
            }
            return compacted;
        }
        working = compacted;
    }
}

} // verus!
