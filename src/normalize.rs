//! Canonical order, duplicate removal, and removal of covered networks.

use crate::cidr::{network_covers, Cidr};
use vstd::prelude::*;

verus! {

broadcast use vstd::seq_lib::group_to_multiset_ensures;

/// Every network of `s` is valid.
pub open spec fn all_wf(s: Seq<Cidr>) -> bool {
    forall|i: int| 0 <= i < s.len() ==> #[trigger] s[i].wf()
}

/// Position of a network in the canonical order: by address, then by prefix length.
pub open spec fn sort_key(c: Cidr) -> int {
    c.addr * 256 + c.prefix_len
}

/// Strictly increasing by address, ties broken by increasing prefix length.
pub open spec fn strictly_sorted(s: Seq<Cidr>) -> bool {
    forall|i: int, j: int| 0 <= i < j < s.len() ==> sort_key(#[trigger] s[i]) < sort_key(#[trigger] s[j])
}

/// The strictly increasing sequence of the networks in `items`.
pub open spec fn sorted_set(items: Set<Cidr>) -> Seq<Cidr> {
    choose|r: Seq<Cidr>| strictly_sorted(r) && r.to_set() == items
}

/// `s` sorted in the canonical order with its duplicates removed.
pub open spec fn normalized(s: Seq<Cidr>) -> Seq<Cidr> {
    sorted_set(s.to_set())
}

/// The left-to-right scan that drops each network covered by the last one kept.
pub open spec fn eliminate(s: Seq<Cidr>) -> Seq<Cidr>
    decreases s.len(),
{
    if s.len() == 0 {
        s
    } else {
        let kept = eliminate(s.drop_last());
        if kept.len() > 0 && kept.last().covers(s.last()) {
            kept
        } else {
            kept.push(s.last())
        }
    }
}

/// `c` placed into the strictly increasing `r`, unless it is there already.
pub open spec fn sorted_insert(r: Seq<Cidr>, c: Cidr) -> Seq<Cidr>
    decreases r.len(),
{
    if r.len() == 0 {
        seq![c]
    } else if sort_key(c) == sort_key(r[0]) {
        r
    } else if sort_key(c) < sort_key(r[0]) {
        seq![c] + r
    } else {
        seq![r[0]] + sorted_insert(r.drop_first(), c)
    }
}

/// Insertion sort without duplicates, a witness that `normalized` is well defined.
pub open spec fn insertion_sorted(s: Seq<Cidr>) -> Seq<Cidr>
    decreases s.len(),
{
    if s.len() == 0 {
        s
    } else {
        sorted_insert(insertion_sorted(s.drop_last()), s.last())
    }
}

pub proof fn lemma_sort_key_injective(a: Cidr, b: Cidr)
    ensures
        sort_key(a) == sort_key(b) <==> a == b,
{
}

proof fn lemma_index_contains(s: Seq<Cidr>, i: int)
    requires
        0 <= i < s.len(),
    ensures
        s.contains(s[i]),
{
}

proof fn lemma_sorted_insert(r: Seq<Cidr>, c: Cidr)
    requires
        strictly_sorted(r),
    ensures
        strictly_sorted(sorted_insert(r, c)),
        forall|x: Cidr| #[trigger] sorted_insert(r, c).contains(x) <==> (r.contains(x) || x == c),
    decreases r.len(),
{
    if r.len() == 0 {
        assert(seq![c][0] == c);
    } else if sort_key(c) == sort_key(r[0]) {
        lemma_sort_key_injective(c, r[0]);
    } else if sort_key(c) < sort_key(r[0]) {
        let s = seq![c] + r;
        assert forall|x: Cidr| s.contains(x) <==> (r.contains(x) || x == c) by {
            if s.contains(x) {
                let k = choose|k: int| 0 <= k < s.len() && s[k] == x;
                if k > 0 {
                    assert(r[k - 1] == x);
                }
            }
            if r.contains(x) {
                let k = choose|k: int| 0 <= k < r.len() && r[k] == x;
                assert(s[k + 1] == x);
            }
            if x == c {
                assert(s[0] == x);
            }
        }
    } else {
        let t = r.drop_first();
        lemma_sorted_insert(t, c);
        let u = sorted_insert(t, c);
        let s = seq![r[0]] + u;
        assert forall|i: int, j: int| 0 <= i < j < s.len() implies sort_key(#[trigger] s[i])
            < sort_key(#[trigger] s[j]) by {
            assert(u[j - 1] == s[j]);
            assert(u.contains(s[j]));
            if i == 0 {
                if s[j] != c {
                    assert(t.contains(s[j]));
                    let m = choose|m: int| 0 <= m < t.len() && t[m] == s[j];
                    assert(r[m + 1] == s[j]);
                }
            } else {
                assert(u[i - 1] == s[i]);
            }
        }
        assert forall|x: Cidr| s.contains(x) <==> (r.contains(x) || x == c) by {
            if s.contains(x) {
                let k = choose|k: int| 0 <= k < s.len() && s[k] == x;
                if k > 0 {
                    lemma_index_contains(u, k - 1);
                    if t.contains(x) {
                        let m = choose|m: int| 0 <= m < t.len() && t[m] == x;
                        assert(r[m + 1] == x);
                    }
                } else {
                    assert(r[0] == x);
                }
            }
            if r.contains(x) {
                let k = choose|k: int| 0 <= k < r.len() && r[k] == x;
                if k == 0 {
                    assert(s[0] == x);
                } else {
                    lemma_index_contains(t, k - 1);
                    assert(u.contains(x));
                    let m = choose|m: int| 0 <= m < u.len() && u[m] == x;
                    assert(s[m + 1] == x);
                }
            }
            if x == c {
                assert(u.contains(c));
                let m = choose|m: int| 0 <= m < u.len() && u[m] == x;
                assert(s[m + 1] == x);
            }
        }
    }
}

proof fn lemma_insertion_sorted(s: Seq<Cidr>)
    ensures
        strictly_sorted(insertion_sorted(s)),
        insertion_sorted(s).to_set() == s.to_set(),
    decreases s.len(),
{
    if s.len() > 0 {
        let d = s.drop_last();
        lemma_insertion_sorted(d);
        lemma_sorted_insert(insertion_sorted(d), s.last());
        assert forall|x: Cidr| s.contains(x) <==> (d.contains(x) || x == s.last()) by {
            if s.contains(x) {
                let k = choose|k: int| 0 <= k < s.len() && s[k] == x;
                if k < s.len() - 1 {
                    assert(d[k] == x);
                }
            }
            if d.contains(x) {
                let k = choose|k: int| 0 <= k < d.len() && d[k] == x;
                assert(s[k] == x);
            }
        }
        assert(insertion_sorted(s).to_set() =~= s.to_set()) by {
            assert(insertion_sorted(d).to_set() == d.to_set());
            assert forall|x: Cidr| insertion_sorted(d).contains(x) <==> d.contains(x) by {
                assert(insertion_sorted(d).to_set().contains(x) == d.to_set().contains(x));
            }
        }
    }
}

/// Two strictly increasing sequences with the same networks are equal.
pub proof fn lemma_sorted_unique(r1: Seq<Cidr>, r2: Seq<Cidr>)
    requires
        strictly_sorted(r1),
        strictly_sorted(r2),
        r1.to_set() == r2.to_set(),
    ensures
        r1 == r2,
    decreases r1.len(),
{
    assert forall|x: Cidr| r1.contains(x) <==> r2.contains(x) by {
        assert(r1.to_set().contains(x) == r1.contains(x));
        assert(r2.to_set().contains(x) == r2.contains(x));
    }
    if r1.len() == 0 {
        if r2.len() > 0 {
            assert(r2.contains(r2[0]));
        }
        assert(r1 =~= r2);
    } else {
        assert(r1.contains(r1[0]));
        assert(r2.len() > 0);
        assert(r2.contains(r2[0]));
        let j = choose|j: int| 0 <= j < r2.len() && r2[j] == r1[0];
        let i = choose|i: int| 0 <= i < r1.len() && r1[i] == r2[0];
        if j > 0 && i > 0 {
            assert(sort_key(r2[0]) < sort_key(r2[j]));
            assert(sort_key(r1[0]) < sort_key(r1[i]));
        }
        if j > 0 && i == 0 {
            assert(sort_key(r2[0]) < sort_key(r2[j]));
        }
        if i > 0 && j == 0 {
            assert(sort_key(r1[0]) < sort_key(r1[i]));
        }
        assert(r1[0] == r2[0]);
        let t1 = r1.drop_first();
        let t2 = r2.drop_first();
        assert forall|x: Cidr| t1.contains(x) <==> t2.contains(x) by {
            if t1.contains(x) {
                let k = choose|k: int| 0 <= k < t1.len() && t1[k] == x;
                assert(r1[k + 1] == x);
                assert(sort_key(r1[0]) < sort_key(r1[k + 1]));
                assert(r2.contains(x));
                let m = choose|m: int| 0 <= m < r2.len() && r2[m] == x;
                assert(m != 0);
                assert(t2[m - 1] == x);
            }
            if t2.contains(x) {
                let k = choose|k: int| 0 <= k < t2.len() && t2[k] == x;
                assert(r2[k + 1] == x);
                assert(sort_key(r2[0]) < sort_key(r2[k + 1]));
                assert(r1.contains(x));
                let m = choose|m: int| 0 <= m < r1.len() && r1[m] == x;
                assert(m != 0);
                assert(t1[m - 1] == x);
            }
        }
        assert(t1.to_set() =~= t2.to_set());
        lemma_sorted_unique(t1, t2);
        assert(r1 =~= r2) by {
            assert(r1 == seq![r1[0]] + t1);
            assert(r2 == seq![r2[0]] + t2);
        }
    }
}

/// `normalized(s)` is strictly increasing and holds exactly the networks of `s`;
/// it is the only sequence that does both.
pub proof fn lemma_normalized(s: Seq<Cidr>)
    ensures
        strictly_sorted(normalized(s)),
        normalized(s).to_set() == s.to_set(),
        forall|r: Seq<Cidr>|
            strictly_sorted(r) && r.to_set() == s.to_set() ==> r == normalized(s),
{
    lemma_insertion_sorted(s);
    let w = insertion_sorted(s);
    assert(strictly_sorted(w) && w.to_set() == s.to_set());
    let n = normalized(s);
    assert(strictly_sorted(n) && n.to_set() == s.to_set());
    assert forall|r: Seq<Cidr>| strictly_sorted(r) && r.to_set() == s.to_set() implies r
        == normalized(s) by {
        lemma_sorted_unique(r, n);
    }
}

/// Relies on `slice::sort_unstable`: the slice ends in ascending order and holds
/// the same items as before.
#[verifier::external_body]
pub(crate) fn sort_keys(keys: &mut Vec<u64>)
    ensures
        final(keys)@.to_multiset() == old(keys)@.to_multiset(),
        forall|i: int, j: int|
            0 <= i < j < final(keys)@.len() ==> final(keys)@[i] <= final(keys)@[j],
{
    keys.sort_unstable();
}

/// Some network of `s` has the position `key` in the canonical order.
pub open spec fn has_key(s: Seq<Cidr>, key: int) -> bool {
    exists|m: int| 0 <= m < s.len() && sort_key(#[trigger] s[m]) == key
}

pub proof fn lemma_permuted_keys(input: Seq<Cidr>, unsorted: Seq<u64>, keys: Seq<u64>)
    requires
        unsorted.len() == input.len(),
        forall|k: int| 0 <= k < input.len() ==> unsorted[k] == sort_key(#[trigger] input[k]),
        keys.to_multiset() == unsorted.to_multiset(),
    ensures
        forall|k: int| 0 <= k < keys.len() ==> has_key(input, #[trigger] keys[k] as int),
        forall|m: int| 0 <= m < input.len() ==> #[trigger] keys.contains(
            sort_key(input[m]) as u64,
        ),
{
    assert forall|k: int| 0 <= k < keys.len() implies has_key(input, #[trigger] keys[k] as int) by {
        assert(keys.contains(keys[k]));
        assert(keys.to_multiset().count(keys[k]) > 0);
        assert(unsorted.to_multiset().count(keys[k]) > 0);
        assert(unsorted.contains(keys[k]));
        let m = choose|m: int| 0 <= m < unsorted.len() && unsorted[m] == keys[k];
        assert(keys[k] == sort_key(input[m]));
    }
    assert forall|m: int| 0 <= m < input.len() implies #[trigger] keys.contains(
        sort_key(input[m]) as u64,
    ) by {
        assert(unsorted[m] == sort_key(input[m]));
        assert(unsorted.contains(sort_key(input[m]) as u64));
        assert(unsorted.to_multiset().count(sort_key(input[m]) as u64) > 0);
        assert(keys.to_multiset().count(sort_key(input[m]) as u64) > 0);
    }
}

/// Sorts `nets` by address, then prefix length, and drops exact duplicates.
pub fn sort_and_dedup(nets: &mut Vec<Cidr>)
    ensures
        final(nets)@ == normalized(old(nets)@),
        strictly_sorted(final(nets)@),
        final(nets)@.to_set() == old(nets)@.to_set(),
{
    let ghost input = nets@;
    let mut keys: Vec<u64> = Vec::with_capacity(nets.len());
    let mut i: usize = 0;
    while i < nets.len()
        invariant
            i <= nets@.len(),
            nets@ == input,
            keys@.len() == i,
            forall|k: int| 0 <= k < i ==> keys@[k] == sort_key(#[trigger] nets@[k]),
        decreases nets@.len() - i,
    {
        let net = nets[i];
        keys.push(net.addr as u64 * 256 + net.prefix_len as u64);
        i = i + 1;
    }
    let ghost unsorted = keys@;
    sort_keys(&mut keys);
    proof {
        lemma_permuted_keys(input, unsorted, keys@);
    }
    let mut out: Vec<Cidr> = Vec::new();
    let mut j: usize = 0;
    while j < keys.len()
        invariant
            j <= keys@.len(),
            forall|a: int, b: int| 0 <= a < b < keys@.len() ==> keys@[a] <= keys@[b],
            forall|k: int| 0 <= k < keys@.len() ==> has_key(input, #[trigger] keys@[k] as int),
            strictly_sorted(out@),
            forall|c: Cidr| out@.contains(c) <==> exists|k: int|
                0 <= k < j && #[trigger] keys@[k] == sort_key(c),
            j > 0 ==> out@.len() > 0 && sort_key(out@.last()) == keys@[j - 1],
            j == 0 ==> out@.len() == 0,
        decreases keys@.len() - j,
    {
        let key = keys[j];
        let ghost before = out@;
        assert(has_key(input, keys@[j as int] as int));
        let ghost m = choose|m: int| 0 <= m < input.len() && sort_key(input[m]) == key;
        let net = Cidr { addr: (key / 256) as u32, prefix_len: (key % 256) as u8 };
        assert(net == input[m]);
        if j == 0 || key != keys[j - 1] {
            proof {
                assert forall|a: int| 0 <= a < out@.len() implies sort_key(#[trigger] out@[a])
                    < sort_key(net) by {
                    assert(out@.contains(out@[a]));
                    let k = choose|k: int| 0 <= k < j && keys@[k] == sort_key(out@[a]);
                }
            }
            out.push(net);
        }
        proof {
            assert forall|c: Cidr| out@.contains(c) <==> exists|k: int|
                0 <= k < j + 1 && #[trigger] keys@[k] == sort_key(c) by {
                if out@.len() > before.len() {
                    assert(out@ == before.push(net));
                    if out@.contains(c) {
                        let a = choose|a: int| 0 <= a < out@.len() && out@[a] == c;
                        if a < before.len() {
                            assert(before[a] == c);
                            assert(before.contains(c));
                        } else {
                            assert(keys@[j as int] == sort_key(c));
                        }
                    }
                    if exists|k: int| 0 <= k < j + 1 && #[trigger] keys@[k] == sort_key(c) {
                        let k = choose|k: int| 0 <= k < j + 1 && #[trigger] keys@[k] == sort_key(c);
                        if k < j {
                            assert(before.contains(c));
                            let a = choose|a: int| 0 <= a < before.len() && before[a] == c;
                            assert(out@[a] == c);
                        } else {
                            lemma_sort_key_injective(c, net);
                            assert(out@[before.len() as int] == c);
                        }
                    }
                } else {
                    assert(out@ == before);
                    if exists|k: int| 0 <= k < j + 1 && #[trigger] keys@[k] == sort_key(c) {
                        let k = choose|k: int| 0 <= k < j + 1 && #[trigger] keys@[k] == sort_key(c);
                        if k == j {
                            assert(keys@[j - 1] == sort_key(c));
                        }
                    }
                }
            }
        }
        j = j + 1;
    }
    proof {
        assert(out@.to_set() =~= input.to_set()) by {
            assert forall|c: Cidr| out@.contains(c) <==> input.contains(c) by {
                if out@.contains(c) {
                    let k = choose|k: int| 0 <= k < j && keys@[k] == sort_key(c);
                    assert(has_key(input, keys@[k] as int));
                    let m = choose|m: int| 0 <= m < input.len() && sort_key(input[m]) == keys@[k];
                    lemma_sort_key_injective(c, input[m]);
                }
                if input.contains(c) {
                    let m = choose|m: int| 0 <= m < input.len() && input[m] == c;
                    assert(keys@.contains(sort_key(input[m]) as u64));
                }
            }
        }
        lemma_normalized(input);
    }
    *nets = out;
}

/// Drops, scanning left to right, each network covered by the last one kept;
/// also tells whether anything was dropped.
pub fn remove_covered_nets(nets: Vec<Cidr>) -> (r: (Vec<Cidr>, bool))
    requires
        all_wf(nets@),
    ensures
        r.0@ == eliminate(nets@),
        r.1 == (r.0@.len() < nets@.len()),
        all_wf(r.0@),
{
    let mut compacted: Vec<Cidr> = Vec::with_capacity(nets.len());
    let mut i: usize = 0;
    while i < nets.len()
        invariant
            i <= nets@.len(),
            all_wf(nets@),
            compacted@ == eliminate(nets@.subrange(0, i as int)),
            compacted@.len() <= i,
            all_wf(compacted@),
        decreases nets@.len() - i,
    {
        let net = nets[i];
        assert(nets@.subrange(0, i + 1).drop_last() == nets@.subrange(0, i as int));
        let n = compacted.len();
        if n > 0 && network_covers(&compacted[n - 1], &net) {
        } else {
            compacted.push(net);
        }
        i = i + 1;
    }
    assert(nets@.subrange(0, nets@.len() as int) == nets@);
    let removed_any = compacted.len() < nets.len();
    (compacted, removed_any)
}

} // verus!
