//! Voice clustering: the renumbering of cluster labels and the count of
//! voices. The clustering itself compares floating-point voice embeddings
//! and belongs to the application; the labels it produces are handled here.
use vstd::prelude::*;

use crate::transcript::{find_rank, lemma_position_bound};

verus! {

/// The labels of the windows visited in `order`, each once, in the order
/// of their first visit.
pub open spec fn first_seen(labels: Seq<usize>, order: Seq<usize>) -> Seq<usize>
    decreases order.len(),
{
    if order.len() == 0 {
        seq![]
    } else {
        let prev = first_seen(labels, order.drop_last());
        let l = labels[order.last() as int];
        if prev.contains(l) {
            prev
        } else {
            prev.push(l)
        }
    }
}

/// The first position of `x` in `s`, or `s.len()` when absent.
pub open spec fn rank_of(s: Seq<usize>, x: usize) -> nat
    decreases s.len(),
{
    if s.len() == 0 {
        0
    } else if s[0] == x {
        0
    } else {
        1 + rank_of(s.drop_first(), x)
    }
}

/// Whether `order` visits every window `0..n` (and nothing else).
pub open spec fn covers(order: Seq<usize>, n: nat) -> bool {
    &&& forall|k: int| 0 <= k < order.len() ==> #[trigger] order[k] < n
    &&& forall|j: int| 0 <= j < n ==> #[trigger] order.contains(j as usize)
}

proof fn lemma_rank(s: Seq<usize>, x: usize)
    ensures
        rank_of(s, x) <= s.len(),
        rank_of(s, x) < s.len() <==> s.contains(x),
        rank_of(s, x) < s.len() ==> s[rank_of(s, x) as int] == x,
        rank_of(s.push(x), x) == rank_of(s, x),
    decreases s.len(),
{
    if s.len() > 0 {
        lemma_rank(s.drop_first(), x);
        assert(s.push(x).drop_first() =~= s.drop_first().push(x));
        if s[0] != x {
            if s.contains(x) {
                let k = choose|k: int| 0 <= k < s.len() && s[k] == x;
                assert(s.drop_first()[k - 1] == x);
            }
            if s.drop_first().contains(x) {
                let k = choose|k: int| 0 <= k < s.drop_first().len() && s.drop_first()[k] == x;
                assert(s[k + 1] == x);
            }
        }
    }
}

proof fn lemma_first_seen_visits(labels: Seq<usize>, order: Seq<usize>)
    requires
        forall|k: int| 0 <= k < order.len() ==> #[trigger] order[k] < labels.len(),
    ensures
        forall|k: int| 0 <= k < order.len() ==> first_seen(labels, order).contains(
            #[trigger] labels[order[k] as int],
        ),
        first_seen(labels, order).len() <= order.len(),
    decreases order.len(),
{
    if order.len() > 0 {
        let prev = order.drop_last();
        lemma_first_seen_visits(labels, prev);
        let fs = first_seen(labels, order);
        let pfs = first_seen(labels, prev);
        assert forall|k: int| 0 <= k < order.len() implies fs.contains(
            #[trigger] labels[order[k] as int],
        ) by {
            if k < prev.len() {
                assert(prev[k] == order[k]);
                assert(pfs.contains(labels[prev[k] as int]));
                if !pfs.contains(labels[order.last() as int]) {
                    let i = choose|i: int| 0 <= i < pfs.len() && pfs[i] == labels[prev[k] as int];
                    assert(fs[i] == pfs[i]);
                }
            } else {
                if !pfs.contains(labels[order.last() as int]) {
                    assert(fs[pfs.len() as int] == labels[order.last() as int]);
                }
            }
        }
    }
}

/// The rank of `x` is its first position: nothing before it is `x`.
proof fn lemma_rank_first(s: Seq<usize>, x: usize)
    ensures
        forall|i: int| 0 <= i < rank_of(s, x) && i < s.len() ==> s[i] != x,
    decreases s.len(),
{
    if s.len() > 0 && s[0] != x {
        lemma_rank_first(s.drop_first(), x);
        assert forall|i: int| 0 <= i < rank_of(s, x) && i < s.len() implies s[i] != x by {
            if i > 0 {
                assert(s[i] == s.drop_first()[i - 1]);
            }
        }
    }
}

/// In a prefix that holds `x`, `x` has the rank it has in the whole.
proof fn lemma_rank_prefix(s: Seq<usize>, p: Seq<usize>, x: usize)
    requires
        p.len() <= s.len(),
        s.take(p.len() as int) == p,
        p.contains(x),
    ensures
        rank_of(s, x) == rank_of(p, x),
{
    lemma_rank(p, x);
    lemma_rank(s, x);
    lemma_rank_first(p, x);
    lemma_rank_first(s, x);
    let rp = rank_of(p, x) as int;
    assert(s[rp] == p[rp]);
    assert(s.contains(x));
    let rs = rank_of(s, x) as int;
    if rs < rp {
        assert(p[rs] == s[rs]);
    }
}

/// The labels first seen on a prefix of the visit are a prefix of those
/// first seen on the whole visit.
proof fn lemma_first_seen_prefix(labels: Seq<usize>, order: Seq<usize>, m: int)
    requires
        0 <= m <= order.len(),
    ensures
        ({
            let p = first_seen(labels, order.take(m));
            let s = first_seen(labels, order);
            p.len() <= s.len() && s.take(p.len() as int) == p
        }),
    decreases order.len(),
{
    if m == order.len() {
        assert(order.take(m) =~= order);
        let s = first_seen(labels, order);
        assert(s.take(s.len() as int) =~= s);
    } else {
        let d = order.drop_last();
        assert(order.take(m) =~= d.take(m));
        lemma_first_seen_prefix(labels, d, m);
        let p = first_seen(labels, d.take(m));
        let q = first_seen(labels, d);
        let s = first_seen(labels, order);
        assert(s.take(q.len() as int) =~= q);
        assert(s.take(p.len() as int) =~= q.take(p.len() as int));
    }
}

/// Numbering by first appearance: visiting the windows in `order`, the
/// number of window `order[k]` is the number of its label if an earlier
/// visited window already had that label, and otherwise the count of the
/// distinct labels seen before it (the next fresh number).
pub proof fn lemma_renumber_first_appearance(labels: Seq<usize>, order: Seq<usize>, k: int)
    requires
        0 <= k < order.len(),
        forall|j: int| 0 <= j < order.len() ==> #[trigger] order[j] < labels.len(),
    ensures
        ({
            let prev = first_seen(labels, order.take(k));
            let l = labels[order[k] as int];
            rank_of(first_seen(labels, order), l) == if prev.contains(l) {
                rank_of(prev, l)
            } else {
                prev.len()
            }
        }),
        first_seen(labels, order.take(k)).contains(labels[order[k] as int]) ==> rank_of(
            first_seen(labels, order.take(k)),
            labels[order[k] as int],
        ) < first_seen(labels, order.take(k)).len(),
{
    let prev = first_seen(labels, order.take(k));
    let l = labels[order[k] as int];
    let t = order.take(k + 1);
    assert(t.drop_last() =~= order.take(k));
    assert(t.last() == order[k]);
    let fk = first_seen(labels, t);
    lemma_rank(prev, l);
    if prev.contains(l) {
        assert(fk == prev);
    } else {
        assert(fk == prev.push(l));
        assert(fk[prev.len() as int] == l);
    }
    assert(fk.contains(l));
    assert(rank_of(fk, l) == if prev.contains(l) { rank_of(prev, l) } else { prev.len() });
    lemma_first_seen_prefix(labels, order, k + 1);
    lemma_rank_prefix(first_seen(labels, order), fk, l);
}

/// Renumbers cluster labels by the order of their first appearance when
/// the windows are visited in `order` (by time): 0, 1, 2, …
pub fn renumber_labels(labels: &Vec<usize>, order: &Vec<usize>) -> (r: Vec<u32>)
    requires
        labels@.len() == order@.len(),
        labels@.len() <= u32::MAX,
        covers(order@, labels@.len()),
    ensures
        r@.len() == labels@.len(),
        forall|i: int|
            0 <= i < r@.len() ==> #[trigger] r@[i] == rank_of(first_seen(labels@, order@), labels@[i]),
        forall|i: int| 0 <= i < r@.len() ==> (#[trigger] r@[i]) < first_seen(labels@, order@).len(),
{
    let n = order.len();
    let mut seen: Vec<usize> = Vec::new();
    let mut k: usize = 0;
    proof {
        assert(order@.take(0) =~= Seq::<usize>::empty());
    }
    while k < n
        invariant
            k <= n == order@.len() == labels@.len(),
            covers(order@, labels@.len()),
            seen@ == first_seen(labels@, order@.take(k as int)),
            seen@.len() <= k,
        decreases n - k,
    {
        proof {
            assert(order@.take(k + 1).drop_last() =~= order@.take(k as int));
            assert(order@.take(k + 1).last() == order@[k as int]);
            assert(order@[k as int] < labels@.len());
        }
        let l = labels[order[k]];
        let mut found = false;
        let mut j: usize = 0;
        while j < seen.len()
            invariant
                j <= seen@.len(),
                found == exists|t: int| 0 <= t < j && seen@[t] == l,
            decreases seen@.len() - j,
        {
            if seen[j] == l {
                found = true;
            }
            j = j + 1;
        }
        if !found {
            seen.push(l);
        }
        k = k + 1;
    }
    proof {
        assert(order@.take(n as int) =~= order@);
        lemma_first_seen_visits(labels@, order@);
    }
    let ghost fs = seen@;
    let mut r: Vec<u32> = Vec::new();
    let mut i: usize = 0;
    while i < labels.len()
        invariant
            i <= labels@.len() == order@.len(),
            labels@.len() <= u32::MAX,
            covers(order@, labels@.len()),
            seen@ == fs,
            fs == first_seen(labels@, order@),
            fs.len() <= labels@.len(),
            forall|k: int| 0 <= k < order@.len() ==> fs.contains(#[trigger] labels@[order@[k] as int]),
            r@.len() == i,
            forall|a: int| 0 <= a < i ==> #[trigger] r@[a] == rank_of(fs, labels@[a]) && r@[a]
                < fs.len(),
        decreases labels@.len() - i,
    {
        let x = labels[i];
        proof {
            assert(order@.contains(i as usize));
            let k = choose|k: int| 0 <= k < order@.len() && order@[k] == i as usize;
            assert(fs.contains(labels@[order@[k] as int]));
            lemma_rank(fs, x);
        }
        let mut p: usize = 0;
        proof {
            assert(fs.skip(0) =~= fs);
        }
        while p < seen.len() && seen[p] != x
            invariant
                p <= seen@.len(),
                seen@ == fs,
                rank_of(fs, x) == p + rank_of(fs.skip(p as int), x),
            decreases seen@.len() - p,
        {
            proof {
                assert(fs.skip(p as int).drop_first() =~= fs.skip(p + 1));
            }
            p = p + 1;
        }
        proof {
            if p < seen@.len() {
                assert(fs.skip(p as int)[0] == x);
            }
        }
        r.push(p as u32);
        i = i + 1;
    }
    r
}

/// How many different speakers a labelling has.
pub fn count_speakers(labels: &[u32]) -> (r: usize)
    ensures
        r == labels@.to_set().len(),
{
    let mut seen: Vec<u32> = Vec::new();
    let mut i: usize = 0;
    while i < labels.len()
        invariant
            i <= labels@.len(),
            seen@.no_duplicates(),
            seen@.to_set() == labels@.take(i as int).to_set(),
            seen@.len() <= i,
        decreases labels@.len() - i,
    {
        let x = labels[i];
        let k = find_rank(&seen, x);
        proof {
            lemma_position_bound(seen@, x);
            assert(labels@.take(i + 1) =~= labels@.take(i as int).push(x));
            assert(labels@.take(i + 1).to_set() =~= labels@.take(i as int).to_set().insert(x)) by {
                broadcast use vstd::seq_lib::group_seq_properties;
            }
        }
        if k == seen.len() {
            let ghost before = seen@;
            seen.push(x);
            proof {
                assert(seen@.to_set() =~= before.to_set().insert(x)) by {
                    broadcast use vstd::seq_lib::group_seq_properties;
                }
                assert forall|a: int, b: int|
                    0 <= a < b < seen@.len() implies seen@[a] != seen@[b] by {
                    if b == seen@.len() - 1 {
                        assert(before.contains(seen@[a]));
                    }
                }
            }
        } else {
            proof {
                assert(seen@.to_set().contains(x));
                assert(seen@.to_set().insert(x) =~= seen@.to_set());
            }
        }
        i = i + 1;
    }
    proof {
        assert(labels@.take(labels@.len() as int) =~= labels@);
        seen@.unique_seq_to_set();
    }
    seen.len()
}


/// The most voices found automatically.
pub const MAX_AUTO_SPEAKERS: usize = 10;

/// How many voices to keep and how many of the heaviest clusters to take
/// for them: with an asked number `k`, `k` (at least one, at most the
/// clusters found); otherwise the large clusters (at most
/// [`MAX_AUTO_SPEAKERS`]). When fewer large clusters were found than the
/// target, the heaviest clusters make up the difference.
pub open spec fn voice_target_spec(num_speakers: Option<usize>, n_clusters: nat, n_large: nat) -> (nat, nat) {
    let large = if n_large < 1 { 1 } else { n_large };
    let target = match num_speakers {
        Some(k) => {
            let k1 = if k < 1 { 1nat } else { k as nat };
            let c1 = if n_clusters < 1 { 1nat } else { n_clusters };
            if k1 < c1 { k1 } else { c1 }
        },
        None => if large < MAX_AUTO_SPEAKERS { large } else { MAX_AUTO_SPEAKERS as nat },
    };
    (target, if large < target { target } else { large })
}

/// The number of voices to keep and of the heaviest clusters to take, from
/// the asked number, the clusters found and how many of them are large.
pub fn voice_target(num_speakers: Option<usize>, n_clusters: usize, n_large: usize) -> (r: (usize, usize))
    ensures
        r.0 == voice_target_spec(num_speakers, n_clusters as nat, n_large as nat).0,
        r.1 == voice_target_spec(num_speakers, n_clusters as nat, n_large as nat).1,
        r.0 >= 1,
        r.0 <= r.1,
{
    let large = if n_large < 1 {
        1
    } else {
        n_large
    };
    let target = match num_speakers {
        Some(k) => {
            let k1 = if k < 1 {
                1
            } else {
                k
            };
            let c1 = if n_clusters < 1 {
                1
            } else {
                n_clusters
            };
            if k1 < c1 {
                k1
            } else {
                c1
            }
        },
        None => if large < MAX_AUTO_SPEAKERS {
            large
        } else {
            MAX_AUTO_SPEAKERS
        },
    };
    (target, if large < target {
        target
    } else {
        large
    })
}
} // verus!
