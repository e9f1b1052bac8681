//! Tracing a bubble's boundary anew from an edge of its own list. In a
//! graph that keeps its invariants the boundary walk runs along the list,
//! so the list only turns to start at that edge, no edge changes its
//! bubble, and the invariants last.
use vstd::prelude::*;
use crate::graph::bubble::Bubble;
use crate::graph::edge::EdgeKey;
use crate::graph::vertex::{has_edge, next_edge, Vertex};
use crate::graph::spec::{
    boundary_ok, bubble_of, closes, closes_at, keys_valid, listed, orbit, orbit_len, rebubble_post, sane,
    sole_open_air, twin_of, walk,
};
use crate::graph::flip::{lemma_list_claims, lemma_listed_in_own, lemma_wrap};

verus! {

/// The list `l` turned to start at its `i`-th edge.
pub open spec fn turned(l: Seq<EdgeKey>, i: int) -> Seq<EdgeKey> {
    l.subrange(i, l.len() as int) + l.subrange(0, i)
}

/// In a graph that keeps its invariants, the boundary walk from the `i`-th
/// edge of bubble `b`'s list runs along the list: after `k` steps, at most
/// one round, it is at the list's position `(i + k) mod n`.
pub proof fn lemma_walk_along(vs: Map<u64, Vertex>, bs: Map<u64, Bubble>, b: u64, i: int, k: nat)
    requires
        sane(vs, bs),
        bs.dom().contains(b),
        0 <= i < bs[b].edges@.len(),
        k <= bs[b].edges@.len(),
    ensures
        walk(vs, bs[b].edges@[i], k) == bs[b].edges@[(i + k) % (bs[b].edges@.len() as int)],
    decreases k,
{
    let l = bs[b].edges@;
    let n = l.len() as int;
    if k == 0 {
        lemma_wrap(i, n);
    } else {
        lemma_walk_along(vs, bs, b, i, (k - 1) as nat);
        let j = (i + k - 1) % n;
        lemma_wrap(i + k - 1, n);
        lemma_wrap(i + k, n);
        lemma_wrap(j + 1, n);
        assert(boundary_ok(vs, bs, b, j));
    }
}

/// In a graph that keeps its invariants, the boundary cycle through an edge
/// of bubble `b`'s list, when the walk closes, is that list turned to start
/// at the edge.
pub proof fn lemma_orbit_turned(vs: Map<u64, Vertex>, bs: Map<u64, Bubble>, b: u64, i: int)
    requires
        sane(vs, bs),
        bs.dom().contains(b),
        0 <= i < bs[b].edges@.len(),
        closes(vs, bs[b].edges@[i]),
    ensures
        orbit_len(vs, bs[b].edges@[i]) == bs[b].edges@.len(),
        orbit(vs, bs[b].edges@[i]) == turned(bs[b].edges@, i),
        forall|k: nat| k <= bs[b].edges@.len() ==>
            #[trigger] walk(vs, bs[b].edges@[i], k) == bs[b].edges@[(i + k) % (bs[b].edges@.len() as int)],
{
    let l = bs[b].edges@;
    let n = l.len() as int;
    let e = l[i];
    assert forall|k: nat| k <= n implies #[trigger] walk(vs, e, k) == l[(i + k) % n] by {
        lemma_walk_along(vs, bs, b, i, k);
    }
    let m = orbit_len(vs, e);
    assert(closes_at(vs, e, m));
    lemma_wrap(i + n, n);
    assert(walk(vs, e, n as nat) == e);
    if m < n {
        lemma_wrap(i + m, n);
        assert(walk(vs, e, m) == l[(i + m) % n]);
        assert(bs[b].edges@[(i + m) % n] != bs[b].edges@[i]);
    } else if m > n {
        assert(walk(vs, e, n as nat) != e);
    }
    assert(m == n);
    let o = orbit(vs, e);
    let t = turned(l, i);
    assert(o.len() == n);
    assert forall|k: int| 0 <= k < n implies o[k] == t[k] by {
        assert(o[k] == walk(vs, e, k as nat));
        lemma_wrap(i + k, n);
    }
    assert(o =~= t);
}

/// Tracing the boundary of the bubble of `e` anew from `e`, in a graph that
/// keeps its invariants, turns that bubble's list to start at `e`, leaves
/// every edge's bubble as it was, and keeps the invariants and the validity
/// of the keys.
pub proof fn law_retrace_keeps_sane(
    vs: Map<u64, Vertex>,
    bs: Map<u64, Bubble>,
    e: EdgeKey,
    vs2: Map<u64, Vertex>,
    bs2: Map<u64, Bubble>,
)
    requires
        keys_valid(vs, bs),
        sane(vs, bs),
        has_edge(vs, e),
        closes(vs, e),
        rebubble_post(vs, bs, vs2, bs2, bubble_of(vs, e), orbit(vs, e)),
    ensures
        keys_valid(vs2, bs2),
        sane(vs2, bs2),
        exists|i: int| 0 <= i < bs[bubble_of(vs, e).id].edges@.len() && bs[bubble_of(vs, e).id].edges@[i] == e
            && #[trigger] turned(bs[bubble_of(vs, e).id].edges@, i) == bs2[bubble_of(vs, e).id].edges@,
        forall|f: EdgeKey| #[trigger] has_edge(vs, f) ==> bubble_of(vs2, f) == bubble_of(vs, f),
{
    let bk = bubble_of(vs, e);
    let b = bk.id;
    lemma_listed_in_own(vs, bs, e);
    let l = bs[b].edges@;
    let n = l.len() as int;
    let i = choose|i: int| 0 <= i < n && l[i] == e;
    lemma_orbit_turned(vs, bs, b, i);
    let o = orbit(vs, e);
    assert(bs2[b].edges@ == o);
    assert(turned(l, i) == bs2[b].edges@);
    // The turned list holds the edges of the list, each once.
    assert forall|k: int| 0 <= k < n implies #[trigger] o[k] == l[(i + k) % n] && 0 <= (i + k) % n < n by {
        lemma_wrap(i + k, n);
    }
    assert forall|x: int| 0 <= x < n implies o[if x >= i { x - i } else { x + n - i }] == #[trigger] l[x] by {
        let k = if x >= i { x - i } else { x + n - i };
        lemma_wrap(i + k, n);
    }
    // No edge changes its bubble.
    assert forall|f: EdgeKey| #[trigger] has_edge(vs, f) implies bubble_of(vs2, f) == bubble_of(vs, f) by {
        if o.contains(f) {
            let k = choose|k: int| 0 <= k < o.len() && o[k] == f;
            assert(l[(i + k) % n] == f);
            assert(l.contains(f));
            lemma_list_claims(vs, bs, b, f);
        }
    }
    // The twins and the next edges are those of before.
    assert forall|f: EdgeKey| #[trigger] has_edge(vs, f) implies twin_of(vs2, f) == twin_of(vs, f)
        && next_edge(vs2, f) == next_edge(vs, f) by {
    }
    assert(keys_valid(vs2, bs2)) by {
        assert forall|f: EdgeKey| #[trigger] has_edge(vs2, f) implies
            twin_of(vs2, f).valid() && crate::slots::odd_version(twin_of(vs2, f).vertex.id) by {
            assert(has_edge(vs, f));
        }
        assert forall|c: u64, j: int| bs2.dom().contains(c) && 0 <= j < bs2[c].edges@.len() implies
            (#[trigger] bs2[c].edges@[j]).valid() && crate::slots::odd_version(bs2[c].edges@[j].vertex.id) by {
            if c == b {
                assert(bs[b].edges@[(i + j) % n] == bs2[c].edges@[j]);
            } else {
                assert(bs2[c] == bs[c]);
            }
        }
    }
    // Every position of every list is in order.
    assert forall|c: u64, j: int| bs2.dom().contains(c) && 0 <= j < bs2[c].edges@.len() implies
        #[trigger] boundary_ok(vs2, bs2, c, j) by {
        if c == b {
            let x = (i + j) % n;
            assert(boundary_ok(vs, bs, b, x));
            assert(o[j] == l[x]);
            let f = l[x];
            assert(has_edge(vs, f));
            assert(has_edge(vs, twin_of(vs, f))) by {
                assert(keys_valid(vs, bs));
            }
            assert(next_edge(vs, f) == walk(vs, e, (j + 1) as nat));
            lemma_wrap(j + 1, n);
            if j + 1 == n {
                lemma_wrap(i, n);
            }
        } else {
            assert(bs2[c] == bs[c]);
            assert(boundary_ok(vs, bs, c, j));
            let f = bs[c].edges@[j];
            assert(bs[c].edges@[j].valid());
            assert(has_edge(vs, f));
            assert(has_edge(vs, twin_of(vs, f)));
        }
    }
    // No edge is listed twice.
    assert forall|b1: u64, i1: int, b2: u64, i2: int|
        bs2.dom().contains(b1) && 0 <= i1 < bs2[b1].edges@.len() && bs2.dom().contains(b2) && 0 <= i2 < bs2[b2].edges@.len()
        && (b1 != b2 || i1 != i2) implies #[trigger] bs2[b1].edges@[i1] != #[trigger] bs2[b2].edges@[i2] by {
        let x1 = if b1 == b { (i + i1) % n } else { i1 };
        let x2 = if b2 == b { (i + i2) % n } else { i2 };
        if b1 == b {
            assert(bs2[b1].edges@[i1] == bs[b1].edges@[x1]);
        } else {
            assert(bs2[b1] == bs[b1]);
        }
        if b2 == b {
            assert(bs2[b2].edges@[i2] == bs[b2].edges@[x2]);
        } else {
            assert(bs2[b2] == bs[b2]);
        }
        if b1 == b && b2 == b && i1 != i2 {
            lemma_wrap(i + i1, n);
            lemma_wrap(i + i2, n);
        }
        assert(bs[b1].edges@[x1] != bs[b2].edges@[x2]);
    }
    // Every edge is listed.
    assert forall|f: EdgeKey| #[trigger] has_edge(vs2, f) implies listed(bs2, f) by {
        assert(has_edge(vs, f));
        assert(listed(bs, f));
        let (c, j) = choose|c: u64, j: int| bs.dom().contains(c) && 0 <= j < bs[c].edges@.len() && #[trigger] bs[c].edges@[j] == f;
        if c == b {
            let k = if j >= i { j - i } else { j + n - i };
            assert(bs2[b].edges@[k] == f);
        } else {
            assert(bs2[c].edges@[j] == f);
        }
    }
    let ob = choose|ob: u64| sole_open_air(bs, ob);
    assert(sole_open_air(bs2, ob)) by {
        assert forall|j: u64| bs2.dom().contains(j) && (#[trigger] bs2[j].style).is_open_air() implies j == ob by {
            if j != b {
                assert(bs2[j] == bs[j]);
            }
        }
        if ob != b {
            assert(bs2[ob] == bs[ob]);
        }
    }
    assert forall|c: u64| #[trigger] bs2.dom().contains(c) implies bs2[c].edges@.len() > 0 by {
        if c != b {
            assert(bs2[c] == bs[c]);
        }
    }
}

} // verus!
