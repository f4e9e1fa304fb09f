//! Helpers for reporting on a compaction: a sort that keeps repeats, for checking
//! whether an input is already compact, and the total address count.

use crate::cidr::Cidr;
use crate::normalize::{all_wf, has_key, lemma_permuted_keys, sort_key, sort_keys};
use vstd::prelude::*;

verus! {

broadcast use vstd::seq_lib::group_to_multiset_ensures;

/// Ordered by address, then prefix length; equal networks may repeat.
pub open spec fn sorted(s: Seq<Cidr>) -> bool {
    forall|i: int, j: int| 0 <= i < j < s.len() ==> sort_key(#[trigger] s[i]) <= sort_key(#[trigger] s[j])
}

/// The network whose position in the canonical order is `key`.
pub open spec fn decode_key(key: u64) -> Cidr {
    Cidr { addr: (key / 256) as u32, prefix_len: (key % 256) as u8 }
}

/// Total number of addresses of the networks of `s`, overlaps counted again.
pub open spec fn total_size(s: Seq<Cidr>) -> int
    decreases s.len(),
{
    if s.len() == 0 {
        0
    } else {
        total_size(s.drop_last()) + s.last().size()
    }
}

/// Applying one function to the items of two permutations of each other gives
/// permutations of each other.
proof fn lemma_map_permutation<A, B>(s1: Seq<A>, s2: Seq<A>, f: spec_fn(A) -> B)
    requires
        s1.to_multiset() == s2.to_multiset(),
    ensures
        s1.map_values(f).to_multiset() == s2.map_values(f).to_multiset(),
    decreases s1.len(),
{
    if s1.len() == 0 {
        assert(s1.to_multiset().len() == s1.len());
        assert(s2.to_multiset().len() == s2.len());
        assert(s1.map_values(f) =~= s2.map_values(f));
    } else {
        let x = s1.last();
        let d1 = s1.drop_last();
        assert(s1 == d1.push(x));
        assert(s1.contains(x)) by {
            assert(s1[s1.len() - 1] == x);
        }
        assert(s2.to_multiset().count(x) > 0);
        assert(s2.contains(x));
        let k = choose|k: int| 0 <= k < s2.len() && s2[k] == x;
        let d2 = s2.remove(k);
        assert(d1.to_multiset() =~= d2.to_multiset()) by {
            assert(s1.to_multiset() == d1.to_multiset().insert(x));
            assert(d2.to_multiset() == s2.to_multiset().remove(x));
        }
        lemma_map_permutation(d1, d2, f);
        let m2 = s2.map_values(f);
        assert(s1.map_values(f) =~= d1.map_values(f).push(f(x)));
        assert(m2.remove(k) =~= d2.map_values(f));
        assert(m2[k] == f(x));
        assert(m2.remove(k).to_multiset() == m2.to_multiset().remove(f(x)));
        assert(m2.contains(f(x))) by {
            assert(m2[k] == f(x));
        }
        assert(m2.to_multiset().count(f(x)) > 0);
        assert(m2.to_multiset().remove(f(x)).insert(f(x)) =~= m2.to_multiset());
    }
}

/// Sorts `nets` by address, then prefix length, keeping repeated networks, so that
/// any change a compaction would make stays visible when the two are compared.
pub fn normalize_for_check(nets: Vec<Cidr>) -> (r: Vec<Cidr>)
    ensures
        sorted(r@),
        r@.to_multiset() == nets@.to_multiset(),
{
    let mut keys: Vec<u64> = Vec::with_capacity(nets.len());
    let mut i: usize = 0;
    while i < nets.len()
        invariant
            i <= nets@.len(),
            keys@.len() == i,
            forall|k: int| 0 <= k < i ==> keys@[k] == sort_key(#[trigger] nets@[k]),
        decreases nets@.len() - i,
    {
        let net = nets[i];
        keys.push(net.addr as u64 * 256 + net.prefix_len as u64);
        i = i + 1;
    }
    let ghost unsorted = keys@;
    sort_keys(&mut keys);
    proof {
        lemma_permuted_keys(nets@, unsorted, keys@);
    }
    let mut out: Vec<Cidr> = Vec::with_capacity(keys.len());
    let mut j: usize = 0;
    while j < keys.len()
        invariant
            j <= keys@.len(),
            forall|a: int, b: int| 0 <= a < b < keys@.len() ==> keys@[a] <= keys@[b],
            out@.len() == j,
            forall|k: int| 0 <= k < j ==> sort_key(#[trigger] out@[k]) == keys@[k],
            forall|k: int| 0 <= k < keys@.len() ==> has_key(nets@, #[trigger] keys@[k] as int),
            out@ == keys@.subrange(0, j as int).map_values(|k: u64| decode_key(k)),
        decreases keys@.len() - j,
    {
        let key = keys[j];
        assert(has_key(nets@, keys@[j as int] as int));
        out.push(Cidr { addr: (key / 256) as u32, prefix_len: (key % 256) as u8 });
        proof {
            assert(out@ =~= keys@.subrange(0, j + 1).map_values(|k: u64| decode_key(k)));
        }
        j = j + 1;
    }
    proof {
        assert(keys@.subrange(0, keys@.len() as int) == keys@);
        lemma_map_permutation(keys@, unsorted, |k: u64| decode_key(k));
        assert forall|k: int| 0 <= k < nets@.len() implies decode_key(
            #[trigger] unsorted[k],
        ) == nets@[k] by {
            assert(unsorted[k] == sort_key(nets@[k]));
        }
        assert(unsorted.map_values(|k: u64| decode_key(k)) =~= nets@);
    }
    out
}

/// Total number of addresses of `nets`, each network counted in full.
pub fn total_addresses(nets: &[Cidr]) -> (r: u128)
    requires
        all_wf(nets@),
    ensures
        r == total_size(nets@),
{
    let mut total: u128 = 0;
    let mut i: usize = 0;
    while i < nets.len()
        invariant
            i <= nets@.len(),
            all_wf(nets@),
            total == total_size(nets@.subrange(0, i as int)),
            total <= i * 0x1_0000_0000,
        decreases nets@.len() - i,
    {
        let net = nets[i];
        assert(nets@.subrange(0, i + 1).drop_last() == nets@.subrange(0, i as int));
        assert(net.wf());
        let count = net.address_count();
        assert(i < 0x1_0000_0000_0000_0000);
        total = total + count as u128;
        i = i + 1;
    }
    assert(nets@.subrange(0, nets@.len() as int) == nets@);
    total
}

} // verus!
