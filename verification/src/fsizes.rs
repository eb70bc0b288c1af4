//! Choosing, among the sizes that peers report for a file, the one to trust.

use vstd::prelude::*;
use crate::net::PeerAddr;

verus! {

/// The sizes that the peers report, in order.
pub open spec fn sizes_of(peers: Seq<(PeerAddr, u64)>) -> Seq<u64> {
    peers.map_values(|p: (PeerAddr, u64)| p.1)
}

/// How many times `v` occurs in `s`.
#[verifier::opaque]
pub open spec fn occurrences(s: Seq<u64>, v: u64) -> nat
    decreases s.len(),
{
    if s.len() == 0 {
        0
    } else {
        occurrences(s.drop_last(), v) + if s.last() == v { 1nat } else { 0nat }
    }
}

/// The position at which `v` first occurs in `s`.
pub open spec fn first_position(s: Seq<u64>, v: u64) -> int {
    choose|i: int| 0 <= i < s.len() && s[i] == v && forall|k: int| 0 <= k < i ==> s[k] != v
}

/// `c` is the size to trust among `s`: it occurs, no size occurs more often,
/// and any other size that occurs as often first occurs before `c` does (of
/// equally common sizes, the one seen first last wins).
pub open spec fn is_most_common_last(s: Seq<u64>, c: u64) -> bool {
    &&& s.contains(c)
    &&& forall|j: int| 0 <= j < s.len() ==> occurrences(s, #[trigger] s[j]) <= occurrences(s, c)
    &&& forall|j: int|
        0 <= j < s.len() && #[trigger] s[j] != c && occurrences(s, s[j]) == occurrences(s, c)
            ==> first_position(s, s[j]) < first_position(s, c)
}

/// The peers of `peers` that report size `c`, in order.
pub open spec fn keep_size(peers: Seq<(PeerAddr, u64)>, c: u64) -> Seq<(PeerAddr, u64)>
    decreases peers.len(),
{
    if peers.len() == 0 {
        seq![]
    } else {
        keep_size(peers.drop_last(), c) + if peers.last().1 == c {
            seq![peers.last()]
        } else {
            seq![]
        }
    }
}

/// What `clear_fsizes` gives for `peers`: the peers that report the size to
/// trust.
pub open spec fn cleared(peers: Seq<(PeerAddr, u64)>, result: Seq<(PeerAddr, u64)>) -> bool {
    exists|c: u64| is_most_common_last(sizes_of(peers), c) && result == keep_size(peers, c)
}

/// The distinct values of `s`, in the order of their first occurrence.
spec fn distinct_in_order(s: Seq<u64>) -> Seq<u64>
    decreases s.len(),
{
    if s.len() == 0 {
        seq![]
    } else {
        let d = distinct_in_order(s.drop_last());
        if d.contains(s.last()) {
            d
        } else {
            d.push(s.last())
        }
    }
}

proof fn lemma_distinct(s: Seq<u64>)
    ensures
        distinct_in_order(s).no_duplicates(),
        forall|u: u64| distinct_in_order(s).contains(u) <==> s.contains(u),
    decreases s.len(),
{
    if s.len() > 0 {
        let t = s.drop_last();
        let x = s.last();
        let dt = distinct_in_order(t);
        let d = distinct_in_order(s);
        lemma_distinct(t);
        assert forall|u: u64| s.contains(u) <==> (t.contains(u) || u == x) by {
            if s.contains(u) {
                let i = choose|i: int| 0 <= i < s.len() && s[i] == u;
                if i < s.len() - 1 {
                    assert(t[i] == u);
                }
            }
            if t.contains(u) {
                let i = choose|i: int| 0 <= i < t.len() && t[i] == u;
                assert(s[i] == u);
            }
            if u == x {
                assert(s[s.len() - 1] == u);
            }
        }
        if !dt.contains(x) {
            assert(d == dt.push(x));
            assert forall|u: u64| d.contains(u) <==> (dt.contains(u) || u == x) by {
                if d.contains(u) {
                    let i = choose|i: int| 0 <= i < d.len() && d[i] == u;
                    if i < dt.len() {
                        assert(dt[i] == u);
                    }
                }
                if dt.contains(u) {
                    let i = choose|i: int| 0 <= i < dt.len() && dt[i] == u;
                    assert(d[i] == u);
                }
                if u == x {
                    assert(d[dt.len() as int] == u);
                }
            }
            assert forall|a: int, b: int| 0 <= a < d.len() && 0 <= b < d.len() && a != b implies d[a]
                != d[b] by {
                if a == dt.len() {
                    assert(dt.contains(d[b]));
                } else if b == dt.len() {
                    assert(dt.contains(d[a]));
                }
            }
        }
    }
}

/// In the order of first occurrence, an earlier value occurs before every
/// occurrence of a later one.
proof fn lemma_distinct_order(s: Seq<u64>, k: int, b: int, i: int)
    requires
        0 <= k < b < distinct_in_order(s).len(),
        0 <= i < s.len(),
        s[i] == distinct_in_order(s)[b],
    ensures
        exists|m: int| 0 <= m < i && s[m] == distinct_in_order(s)[k],
    decreases s.len(),
{
    let t = s.drop_last();
    let d = distinct_in_order(s);
    let dt = distinct_in_order(t);
    lemma_distinct(t);
    lemma_distinct(s);
    if dt.contains(s.last()) {
        assert(d == dt);
        if i < s.len() - 1 {
            assert(t[i] == d[b]);
            lemma_distinct_order(t, k, b, i);
            let m = choose|m: int| 0 <= m < i && t[m] == dt[k];
            assert(s[m] == d[k]);
        } else {
            assert(t.contains(s.last()));
            let i2 = choose|i2: int| 0 <= i2 < t.len() && t[i2] == s.last();
            lemma_distinct_order(t, k, b, i2);
            let m = choose|m: int| 0 <= m < i2 && t[m] == dt[k];
            assert(s[m] == d[k]);
        }
    } else {
        assert(d == dt.push(s.last()));
        if b == dt.len() {
            assert(d[k] == dt[k]);
            assert(dt.contains(dt[k]));
            assert(t.contains(d[k]));
            if i < s.len() - 1 {
                assert(t[i] == s[i]);
                assert(t.contains(s.last()));
                assert(false);
            }
            let m = choose|m: int| 0 <= m < t.len() && t[m] == d[k];
            assert(s[m] == d[k]);
        } else {
            assert(d[b] == dt[b]);
            assert(dt.contains(d[b]));
            if i == s.len() - 1 {
                assert(false);
            }
            assert(t[i] == dt[b]);
            lemma_distinct_order(t, k, b, i);
            let m = choose|m: int| 0 <= m < i && t[m] == dt[k];
            assert(s[m] == d[k]);
        }
    }
}

proof fn lemma_occurrences_absent(s: Seq<u64>, v: u64)
    requires
        !distinct_in_order(s).contains(v),
    ensures
        occurrences(s, v) == 0,
    decreases s.len(),
{
    reveal(occurrences);
    lemma_distinct(s);
    if s.len() > 0 {
        let t = s.drop_last();
        lemma_distinct(t);
        assert(s[s.len() - 1] == s.last());
        assert(s.contains(s.last()));
        assert(s.last() != v);
        if t.contains(v) {
            let i = choose|i: int| 0 <= i < t.len() && t[i] == v;
            assert(s[i] == v);
            assert(s.contains(v));
        }
        assert(!t.contains(v));
        lemma_occurrences_absent(t, v);
        reveal(occurrences);
    }
}

/// Position of `v` in the running count.
fn find_size(counts: &Vec<(u64, usize)>, v: u64) -> (r: Option<usize>)
    ensures
        match r {
            Some(k) => k < counts@.len() && counts@[k as int].0 == v,
            None => forall|k: int| 0 <= k < counts@.len() ==> counts@[k].0 != v,
        },
{
    let mut k: usize = 0;
    while k < counts.len()
        invariant
            k <= counts@.len(),
            forall|j: int| 0 <= j < k ==> counts@[j].0 != v,
        decreases counts@.len() - k,
    {
        if counts[k].0 == v {
            return Some(k);
        }
        k = k + 1;
    }
    None
}

/// Keeps the peers that report the most common file size; where several sizes
/// are equally common, the one first reported last wins. Peers keep their
/// order.
pub fn clear_fsizes(peers: Vec<(PeerAddr, u64)>) -> (r: Result<Vec<(PeerAddr, u64)>, std::io::Error>)
    requires
        peers@.len() > 0,
    ensures
        match r {
            Ok(kept) => cleared(peers@, kept@),
            Err(_) => false,
        },
{
    let ghost s = sizes_of(peers@);
    // Sizes in the order of their first report, each with how often it comes.
    let mut counts: Vec<(u64, usize)> = Vec::new();
    let mut i: usize = 0;
    while i < peers.len()
        invariant
            i <= peers@.len(),
            s == sizes_of(peers@),
            counts@.len() == distinct_in_order(s.subrange(0, i as int)).len(),
            forall|k: int|
                0 <= k < counts@.len() ==> {
                    &&& (#[trigger] counts@[k]).0 == distinct_in_order(s.subrange(0, i as int))[k]
                    &&& counts@[k].1 == occurrences(s.subrange(0, i as int), counts@[k].0)
                },
            forall|k: int| 0 <= k < counts@.len() ==> (#[trigger] counts@[k]).1 <= i,
        decreases peers@.len() - i,
    {
        let v = peers[i].1;
        let ghost before = counts@;
        let ghost prefix = s.subrange(0, i as int);
        let ghost next = s.subrange(0, i + 1);
        proof {
            assert(next.drop_last() == prefix);
            assert(next.last() == v);
            lemma_distinct(prefix);
        }
        match find_size(&counts, v) {
            Some(k) => {
                let c = counts[k].1;
                counts.set(k, (v, c + 1));
                proof {
                    assert(distinct_in_order(prefix).contains(v)) by {
                        assert(distinct_in_order(prefix)[k as int] == v);
                    }
                    assert(distinct_in_order(next) == distinct_in_order(prefix));
                    assert forall|kk: int| 0 <= kk < counts@.len() implies {
                        &&& (#[trigger] counts@[kk]).0 == distinct_in_order(next)[kk]
                        &&& counts@[kk].1 == occurrences(next, counts@[kk].0)
                    } by {
                        reveal(occurrences);
                        assert(occurrences(next, before[kk].0) == occurrences(prefix, before[kk].0)
                            + if before[kk].0 == v { 1nat } else { 0nat });
                        if kk != k {
                            lemma_distinct(prefix);
                            assert(before[kk].0 != v);
                        }
                    }
                }
            },
            None => {
                counts.push((v, 1));
                proof {
                    if distinct_in_order(prefix).contains(v) {
                        let kk = choose|kk: int|
                            0 <= kk < distinct_in_order(prefix).len() && distinct_in_order(prefix)[kk] == v;
                        assert(counts@[kk].0 == v);
                    }
                    assert(!distinct_in_order(prefix).contains(v));
                    assert(distinct_in_order(next) == distinct_in_order(prefix).push(v));
                    assert forall|kk: int| 0 <= kk < counts@.len() implies {
                        &&& (#[trigger] counts@[kk]).0 == distinct_in_order(next)[kk]
                        &&& counts@[kk].1 == occurrences(next, counts@[kk].0)
                    } by {
                        reveal(occurrences);
                        assert(occurrences(next, counts@[kk].0) == occurrences(prefix, counts@[kk].0)
                            + if counts@[kk].0 == v { 1nat } else { 0nat });
                        if kk == before.len() {
                            lemma_occurrences_absent(prefix, v);
                        }
                    }
                }
            },
        }
        i = i + 1;
    }
    let ghost d = distinct_in_order(s);
    proof {
        assert(s.subrange(0, peers@.len() as int) == s);
        lemma_distinct(s);
        assert(s.contains(s[0]));
    }
    // The most common size; of equally common ones, the last in `counts`.
    let mut best: usize = 0;
    let mut k: usize = 1;
    while k < counts.len()
        invariant
            counts@.len() == d.len(),
            0 < d.len(),
            best < k <= counts@.len(),
            forall|j: int| 0 <= j < k ==> (#[trigger] counts@[j]).1 <= counts@[best as int].1,
            forall|j: int| 0 <= j < k && (#[trigger] counts@[j]).1 == counts@[best as int].1 ==> j <= best,
        decreases counts@.len() - k,
    {
        if counts[k].1 >= counts[best].1 {
            best = k;
        }
        k = k + 1;
    }
    let size = counts[best].1;
    let chosen = counts[best].0;
    proof {
        assert(chosen == d[best as int]);
        assert(d.contains(chosen));
        assert(s.contains(chosen));
        assert forall|j: int| 0 <= j < s.len() implies occurrences(s, #[trigger] s[j]) <= occurrences(s, chosen) by {
            assert(s.contains(s[j]));
            assert(d.contains(s[j]));
            let kk = choose|kk: int| 0 <= kk < d.len() && d[kk] == s[j];
            assert(counts@[kk].0 == s[j]);
        }
        let w = choose|w: int| 0 <= w < s.len() && s[w] == chosen;
        let fc = first_index(s, chosen, w);
        lemma_first_position(s, chosen, fc);
        assert forall|b: int|
            0 <= b < s.len() && #[trigger] s[b] != chosen && occurrences(s, s[b]) == occurrences(
                s,
                chosen,
            ) implies first_position(s, s[b]) < first_position(s, chosen) by {
            assert(s.contains(s[b]));
            assert(d.contains(s[b]));
            let kk = choose|kk: int| 0 <= kk < d.len() && d[kk] == s[b];
            assert(counts@[kk].0 == s[b]);
            assert(counts@[kk].1 == counts@[best as int].1);
            assert(kk != best);
            lemma_distinct_order(s, kk, best as int, fc);
            let m = choose|m: int| 0 <= m < fc && s[m] == d[kk];
            let fb = first_index(s, s[b], m);
            lemma_first_position(s, s[b], fb);
        }
        assert(is_most_common_last(s, chosen));
    }
    // Keep the peers that report it.
    let mut kept: Vec<(PeerAddr, u64)> = Vec::new();
    let mut j: usize = 0;
    while j < peers.len()
        invariant
            j <= peers@.len(),
            kept@ == keep_size(peers@.subrange(0, j as int), chosen),
        decreases peers@.len() - j,
    {
        let ghost prefix = peers@.subrange(0, j as int);
        proof {
            assert(peers@.subrange(0, j + 1).drop_last() == prefix);
        }
        if peers[j].1 == chosen {
            kept.push(peers[j]);
            proof {
                assert(kept@ == keep_size(peers@.subrange(0, j + 1), chosen));
            }
        } else {
            proof {
                assert(keep_size(prefix, chosen) + seq![] == keep_size(prefix, chosen));
            }
        }
        j = j + 1;
    }
    proof {
        assert(peers@.subrange(0, peers@.len() as int) == peers@);
    }
    Ok(kept)
}

proof fn first_index(s: Seq<u64>, x: u64, i: int) -> (j: int)
    requires
        0 <= i < s.len(),
        s[i] == x,
    ensures
        0 <= j <= i,
        s[j] == x,
        forall|k: int| 0 <= k < j ==> s[k] != x,
    decreases i,
{
    if exists|k: int| 0 <= k < i && s[k] == x {
        let k = choose|k: int| 0 <= k < i && s[k] == x;
        first_index(s, x, k)
    } else {
        i
    }
}

/// `first_position` is the first index at which the value occurs.
proof fn lemma_first_position(s: Seq<u64>, v: u64, j: int)
    requires
        0 <= j < s.len(),
        s[j] == v,
        forall|k: int| 0 <= k < j ==> s[k] != v,
    ensures
        first_position(s, v) == j,
{
    let f = first_position(s, v);
    assert(0 <= f < s.len() && s[f] == v && forall|k: int| 0 <= k < f ==> s[k] != v);
    if f < j {
        assert(s[f] != v);
    }
    if j < f {
        assert(s[j] != v);
    }
}

/// The size to trust is determined: no two sizes both qualify.
pub proof fn law_most_common_last_unique(s: Seq<u64>, c1: u64, c2: u64)
    requires
        is_most_common_last(s, c1),
        is_most_common_last(s, c2),
    ensures
        c1 == c2,
{
    if c1 != c2 {
        let w1 = choose|i: int| 0 <= i < s.len() && s[i] == c1;
        let w2 = choose|i: int| 0 <= i < s.len() && s[i] == c2;
        let i1 = first_index(s, c1, w1);
        let i2 = first_index(s, c2, w2);
        lemma_first_position(s, c1, i1);
        lemma_first_position(s, c2, i2);
        assert(occurrences(s, s[i1]) <= occurrences(s, c2));
        assert(occurrences(s, s[i2]) <= occurrences(s, c1));
        assert(s[i2] != c1);
        assert(s[i1] != c2);
    }
}

/// Of two sizes reported equally often, and more often than any other, the
/// one whose first report came later is trusted, never the earlier one.
pub proof fn law_tie_goes_to_later_size(s: Seq<u64>, a: u64, b: u64, c: u64)
    requires
        is_most_common_last(s, c),
        s.contains(a),
        s.contains(b),
        a != b,
        occurrences(s, a) == occurrences(s, b),
        forall|j: int| 0 <= j < s.len() ==> occurrences(s, #[trigger] s[j]) <= occurrences(s, a),
        first_position(s, a) < first_position(s, b),
    ensures
        c != a,
{
    if c == a {
        let j = choose|j: int| 0 <= j < s.len() && s[j] == b;
        assert(s[j] != c && occurrences(s, s[j]) == occurrences(s, c));
    }
}

pub(crate) proof fn lemma_keep_size(p: Seq<(PeerAddr, u64)>, c: u64)
    ensures
        forall|i: int| 0 <= i < keep_size(p, c).len() ==> (#[trigger] keep_size(p, c)[i]).1 == c,
        sizes_of(p).contains(c) ==> keep_size(p, c).len() > 0,
        (forall|i: int| 0 <= i < p.len() ==> (#[trigger] p[i]).1 == c) ==> keep_size(p, c) == p,
    decreases p.len(),
{
    if p.len() > 0 {
        let t = p.drop_last();
        lemma_keep_size(t, c);
        assert forall|i: int| 0 <= i < keep_size(p, c).len() implies (#[trigger] keep_size(p, c)[i]).1
            == c by {
            if i < keep_size(t, c).len() {
                assert(keep_size(p, c)[i] == keep_size(t, c)[i]);
            }
        }
        if sizes_of(p).contains(c) && !(p.last().1 == c) {
            let i = choose|i: int| 0 <= i < sizes_of(p).len() && sizes_of(p)[i] == c;
            assert(i != p.len() - 1);
            assert(sizes_of(t)[i] == c);
        }
        if forall|i: int| 0 <= i < p.len() ==> (#[trigger] p[i]).1 == c {
            assert forall|i: int| 0 <= i < t.len() implies (#[trigger] t[i]).1 == c by {
                assert(t[i] == p[i]);
            }
            assert(p[p.len() - 1].1 == c);
            assert(keep_size(p, c) =~= p);
        }
    }
}

/// Clearing twice clears no more than once: the peers that remain all report
/// one size, which is then the size to trust, and all of them stay.
pub proof fn law_clear_fsizes_idempotent(
    peers: Seq<(PeerAddr, u64)>,
    once: Seq<(PeerAddr, u64)>,
    twice: Seq<(PeerAddr, u64)>,
)
    requires
        cleared(peers, once),
        cleared(once, twice),
    ensures
        twice == once,
        once.len() > 0,
{
    let c = choose|c: u64| is_most_common_last(sizes_of(peers), c) && once == keep_size(peers, c);
    let c2 = choose|c2: u64| is_most_common_last(sizes_of(once), c2) && twice == keep_size(once, c2);
    lemma_keep_size(peers, c);
    law_most_common_last_unique(sizes_of(peers), c, c);
    let w = choose|i: int| 0 <= i < sizes_of(once).len() && sizes_of(once)[i] == c2;
    assert(once[w].1 == c);
    lemma_keep_size(once, c2);
}

} // verus!
