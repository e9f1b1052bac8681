//! What a spawn does to the boundaries: the new triangle becomes a bubble
//! of three edges, the bubbles of the second and third edges of the vertex
//! each gain one edge, the bubble of its first edge trades that edge for two
//! new ones, and every other boundary stays as it was. A bubble that meets
//! the vertex more than once, as across a bridge, takes each of these
//! changes at each place where it meets it.
use vstd::prelude::*;
use crate::graph::bubble::{Bubble, BubbleKey, BubbleStyle};
use crate::graph::closure::{edge_set, lemma_first_return, lemma_walk_back, lemma_walk_in, pairs_up};
use crate::slots::issued_key;
use crate::graph::edge::EdgeKey;
use crate::graph::flip::{
    follows, grown, lemma_closes_by_unique, lemma_follow, lemma_grow, lemma_grown_facts, lemma_orbit_list_ok,
    lemma_return_bound, lemma_wrap, list_good,
    lemma_sane_lists_follow, lists_follow, next_by,
};
use crate::graph::spec::{
    boundary_ok, bubble_of, chain_label, chain_list, closes_by, closes_by_at, ek, euler_ok, keys_valid, linked, listed, listing_ok,
    orbit_by, sane, sole_open_air, spawn_chain, spawn_closes, spawn_reads_ok, spawn_twins, spawned, twins_are,
    twin_of, twins, unlinked_bubble, unlinked_twin, walk_by,
};
use crate::graph::vertex::{has_edge, next_edge, Vertex, VertexKey};

verus! {

/// Walking `i + k` steps is walking `i` steps and then `k` more.
pub proof fn lemma_walk_add(tw: spec_fn(EdgeKey) -> EdgeKey, s: EdgeKey, i: nat, k: nat)
    ensures
        walk_by(tw, s, i + k) == walk_by(tw, walk_by(tw, s, i), k),
    decreases k,
{
    if k > 0 {
        lemma_walk_add(tw, s, i, (k - 1) as nat);
        assert(walk_by(tw, s, i + k) == next_by(tw, walk_by(tw, s, (i + k - 1) as nat)));
    }
}

/// A closed walk repeats no edge before it comes back, and its cycle is the
/// walk itself.
pub proof fn lemma_orbit_nodup(tw: spec_fn(EdgeKey) -> EdgeKey, d: Set<u64>, s: EdgeKey, n: nat)
    requires
        pairs_up(tw, d),
        closes_by_at(tw, d, s, n),
    ensures
        orbit_by(tw, d, s) == Seq::new(n, |i: int| walk_by(tw, s, i as nat)),
        orbit_by(tw, d, s).no_duplicates(),
{
    lemma_closes_by_unique(tw, d, s, n);
    let o = orbit_by(tw, d, s);
    assert(walk_by(tw, s, 0) == s);
    assert(edge_set(d).contains(s));
    assert forall|i: int, j: int| 0 <= i < j < o.len() implies o[i] != o[j] by {
        if o[i] == o[j] {
            lemma_walk_back(tw, d, s, i as nat, j as nat);
            assert(walk_by(tw, s, (j - i) as nat) == s);
        }
    }
}

/// A closed walk seen from its `j`-th edge: it closes after as many steps,
/// passes the same edges, and repeats none of them.
pub proof fn lemma_orbit_rotate(tw: spec_fn(EdgeKey) -> EdgeKey, d: Set<u64>, s: EdgeKey, n: nat, j: nat)
    requires
        pairs_up(tw, d),
        closes_by_at(tw, d, s, n),
        j < n,
    ensures
        closes_by_at(tw, d, walk_by(tw, s, j), n),
        orbit_by(tw, d, walk_by(tw, s, j)).no_duplicates(),
        forall|f: EdgeKey| #![trigger orbit_by(tw, d, walk_by(tw, s, j)).contains(f)]
            orbit_by(tw, d, walk_by(tw, s, j)).contains(f) <==> orbit_by(tw, d, s).contains(f),
{
    let u = walk_by(tw, s, j);
    let ni = n as int;
    let ji = j as int;
    lemma_orbit_nodup(tw, d, s, n);
    let os = orbit_by(tw, d, s);
    assert forall|k: nat| k <= n implies #[trigger] walk_by(tw, u, k) == walk_by(tw, s, ((ji + k) % ni) as nat) by {
        lemma_walk_add(tw, s, j, k);
        lemma_wrap(ji + k, ni);
        if j + k >= n {
            lemma_walk_add(tw, s, n, (j + k - n) as nat);
        }
    }
    assert(walk_by(tw, u, n) == u) by {
        lemma_wrap(ji + ni, ni);
    }
    assert forall|k: nat| 0 < k < n implies #[trigger] walk_by(tw, u, k) != u by {
        lemma_wrap(ji + k, ni);
        let m = (ji + k) % ni;
        assert(os[m] == walk_by(tw, s, m as nat) && os[j as int] == u);
    }
    assert forall|k: nat| k < n implies (#[trigger] walk_by(tw, u, k)).offset < 3
        && d.contains(walk_by(tw, u, k).vertex.id) && tw(walk_by(tw, u, k)).valid() by {
        lemma_wrap(ji + k, ni);
        assert(walk_by(tw, s, ((ji + k) % ni) as nat).offset < 3);
    }
    assert(closes_by_at(tw, d, u, n));
    lemma_orbit_nodup(tw, d, u, n);
    let ou = orbit_by(tw, d, u);
    assert forall|f: EdgeKey| ou.contains(f) <==> os.contains(f) by {
        if ou.contains(f) {
            let k = choose|k: int| 0 <= k < ou.len() && ou[k] == f;
            assert(walk_by(tw, u, k as nat) == f);
            lemma_wrap(ji + k, ni);
            assert(os[(ji + k) % ni] == f);
        }
        if os.contains(f) {
            let i = choose|i: int| 0 <= i < os.len() && os[i] == f;
            let k: int = if i >= ji { i - ji } else { i + ni - ji };
            lemma_wrap(ji + k, ni);
            assert(walk_by(tw, u, k as nat) == walk_by(tw, s, ((ji + k) % ni) as nat));
            assert(ou[k] == f);
        }
    }
}

/// A walk that comes back to its edge after at most a thousand steps, with
/// twins that pair up the edges, closes within a thousand steps.
pub proof fn lemma_closes_from(tw: spec_fn(EdgeKey) -> EdgeKey, d: Set<u64>, w: EdgeKey, m: nat)
    requires
        pairs_up(tw, d),
        edge_set(d).contains(w),
        1 <= m <= 1000,
        walk_by(tw, w, m) == w,
    ensures
        closes_by(tw, d, w),
{
    lemma_first_return(tw, w, m);
    let n = choose|n: nat| 1 <= n <= m && walk_by(tw, w, n) == w
        && forall|i: nat| 0 < i < n ==> #[trigger] walk_by(tw, w, i) != w;
    assert forall|i: nat| i < n implies (#[trigger] walk_by(tw, w, i)).offset < 3
        && d.contains(walk_by(tw, w, i).vertex.id) && tw(walk_by(tw, w, i)).valid() by {
        lemma_walk_in(tw, d, w, i);
        assert(edge_set(d).contains(tw(walk_by(tw, w, i))));
    }
    assert(closes_by_at(tw, d, w, n));
}

/// A closed walk also closes from the edge after its start and from the
/// edge before it.
pub proof fn lemma_closes_around(tw: spec_fn(EdgeKey) -> EdgeKey, d: Set<u64>, u: EdgeKey, w: EdgeKey)
    requires
        pairs_up(tw, d),
        closes_by(tw, d, u),
        edge_set(d).contains(w),
        next_by(tw, u) == w || next_by(tw, w) == u,
    ensures
        closes_by(tw, d, w),
{
    let m = choose|m: nat| closes_by_at(tw, d, u, m);
    assert(closes_by_at(tw, d, u, m));
    assert(walk_by(tw, u, 0) == u);
    assert(edge_set(d).contains(u));
    if next_by(tw, u) == w {
        assert(walk_by(tw, u, 1) == w);
        lemma_walk_add(tw, u, 1, m);
        lemma_walk_add(tw, u, m, 1);
        assert(walk_by(tw, walk_by(tw, u, m), 1) == next_by(tw, u));
        lemma_closes_from(tw, d, w, m);
    } else {
        assert(walk_by(tw, w, 0) == w);
        assert(walk_by(tw, w, 1) == u);
        lemma_walk_add(tw, w, 1, m);
        lemma_walk_back(tw, d, w, 1, m + 1);
        lemma_closes_from(tw, d, w, m);
    }
}

/// The list `l` with `s` put in right after position `c`.
pub open spec fn inserted(l: Seq<EdgeKey>, c: int, s: EdgeKey) -> Seq<EdgeKey> {
    Seq::new(l.len() + 1, |i: int| if i <= c { l[i] } else if i == c + 1 { s } else { l[i - 1] })
}

/// A list that follows the twins `tw` follows the twins `tw2` once `s` is
/// put in after its edge at position `c`, when that edge now leads to `s`,
/// `s` leads where that edge led, and the rest of the list leads as before.
pub proof fn lemma_insert_follows(
    tw: spec_fn(EdgeKey) -> EdgeKey,
    tw2: spec_fn(EdgeKey) -> EdgeKey,
    l: Seq<EdgeKey>,
    c: int,
    s: EdgeKey,
)
    requires
        follows(tw, l),
        1 <= l.len(),
        0 <= c < l.len(),
        next_by(tw2, l[c]) == s,
        next_by(tw2, s) == next_by(tw, l[c]),
        forall|i: int| 0 <= i < l.len() && i != c ==> next_by(tw2, #[trigger] l[i]) == next_by(tw, l[i]),
    ensures
        follows(tw2, inserted(l, c, s)),
        inserted(l, c, s).len() == l.len() + 1,
{
    let n = l.len() as int;
    let l2 = inserted(l, c, s);
    assert forall|i: int| 0 <= i < n + 1 implies #[trigger] next_by(tw2, l2[i]) == l2[(i + 1) % (n + 1)] by {
        lemma_wrap(i + 1, n + 1);
        if i < c {
            assert(next_by(tw, l[i]) == l[(i + 1) % n]);
            lemma_wrap(i + 1, n);
        } else if i == c {
        } else if i == c + 1 {
            assert(next_by(tw, l[c]) == l[(c + 1) % n]);
            lemma_wrap(c + 1, n);
        } else {
            assert(next_by(tw, l[i - 1]) == l[i % n]);
            lemma_wrap(i, n);
        }
    }
}

/// What `inserted` holds: every edge of the list, and `s`, each once.
pub proof fn lemma_inserted_facts(l: Seq<EdgeKey>, c: int, s: EdgeKey)
    requires
        0 <= c < l.len(),
        l.no_duplicates(),
        !l.contains(s),
    ensures
        inserted(l, c, s).no_duplicates(),
        forall|f: EdgeKey| #[trigger] inserted(l, c, s).contains(f) <==> (l.contains(f) || f == s),
{
    let l2 = inserted(l, c, s);
    assert forall|i: int, j: int| 0 <= i < j < l2.len() implies l2[i] != l2[j] by {
        if i != c + 1 && j != c + 1 {
            let a = if i <= c { i } else { i - 1 };
            let b = if j <= c { j } else { j - 1 };
            assert(l2[i] == l[a] && l2[j] == l[b] && a != b);
        } else if i == c + 1 {
            assert(l.contains(l[j - 1]));
        } else {
            assert(l.contains(l[i]));
        }
    }
    assert forall|f: EdgeKey| #[trigger] l2.contains(f) <==> (l.contains(f) || f == s) by {
        if l2.contains(f) {
            let i = choose|i: int| 0 <= i < l2.len() && l2[i] == f;
            if i <= c {
                assert(l[i] == f);
            } else if i > c + 1 {
                assert(l[i - 1] == f);
            }
        }
        if l.contains(f) {
            let i = choose|i: int| 0 <= i < l.len() && l[i] == f;
            if i <= c {
                assert(l2[i] == f);
            } else {
                assert(l2[i + 1] == f);
            }
        }
        if f == s {
            assert(l2[c + 1] == f);
        }
    }
}

/// A list without repeats that follows twins which pair up the edges, and
/// whose walk from its `j`-th edge closes within a thousand steps, is that
/// walk's cycle: the walk comes back after as many steps as the list has
/// edges and passes exactly the list's edges.
pub proof fn lemma_follows_closes(
    tw: spec_fn(EdgeKey) -> EdgeKey,
    d: Set<u64>,
    dc: Set<u64>,
    l: Seq<EdgeKey>,
    j: int,
)
    requires
        follows(tw, l),
        l.no_duplicates(),
        1 <= l.len(),
        0 <= j < l.len(),
        forall|i: int| 0 <= i < l.len() ==> edge_set(d).contains(#[trigger] l[i]),
        pairs_up(tw, d),
        closes_by(tw, dc, l[j]),
    ensures
        closes_by_at(tw, d, l[j], l.len()),
        orbit_by(tw, d, l[j]).no_duplicates(),
        forall|f: EdgeKey| #![trigger orbit_by(tw, d, l[j]).contains(f)]
            orbit_by(tw, d, l[j]).contains(f) <==> l.contains(f),
{
    let n = l.len() as int;
    let u = l[j];
    assert forall|m: int| 0 <= m < n implies #[trigger] next_by(tw, l[(j + m) % n]) == l[(j + m + 1) % n] by {
        lemma_wrap(j + m, n);
        lemma_wrap(j + m + 1, n);
        lemma_wrap((j + m) % n + 1, n);
        assert(next_by(tw, l[(j + m) % n]) == l[((j + m) % n + 1) % n]);
    }
    assert forall|k: nat| k <= n implies #[trigger] walk_by(tw, u, k) == l[(j + k) % n] by {
        lemma_wrap(j, n);
        lemma_follow(tw, l, j, n as nat, k);
    }
    lemma_wrap(j + n, n);
    assert forall|k: nat| 0 < k < n implies #[trigger] walk_by(tw, u, k) != u by {
        lemma_wrap(j + k, n);
    }
    assert forall|k: nat| k < n implies (#[trigger] walk_by(tw, u, k)).offset < 3
        && d.contains(walk_by(tw, u, k).vertex.id) && tw(walk_by(tw, u, k)).valid() by {
        lemma_wrap(j + k, n);
        assert(edge_set(d).contains(l[(j + k) % n]));
        assert(edge_set(d).contains(tw(walk_by(tw, u, k))));
    }
    lemma_return_bound(tw, dc, u, n as nat);
    assert(closes_by_at(tw, d, u, n as nat));
    lemma_orbit_nodup(tw, d, u, n as nat);
    let o = orbit_by(tw, d, u);
    assert forall|f: EdgeKey| o.contains(f) <==> l.contains(f) by {
        if o.contains(f) {
            let k = choose|k: int| 0 <= k < o.len() && o[k] == f;
            assert(walk_by(tw, u, k as nat) == f);
            lemma_wrap(j + k, n);
        }
        if l.contains(f) {
            let i = choose|i: int| 0 <= i < n && l[i] == f;
            let k: int = if i >= j { i - j } else { i + n - j };
            lemma_wrap(j + k, n);
            assert(walk_by(tw, u, k as nat) == f);
            assert(o[k] == f);
        }
    }
}


/// Around a vertex with no loop through its first two walls, the twins of
/// its edges exist and have the edges as their twins, the twin of its first
/// edge runs along the bubble of its third edge, the twin of its second
/// edge along the bubble of its first, and the twin of its third along the
/// bubble of its second.
pub proof fn lemma_spawn_around(vs: Map<u64, Vertex>, bs: Map<u64, Bubble>, v: VertexKey)
    requires
        lists_follow(vs, bs),
        vs.dom().contains(v.id),
        spawn_loopless(vs, v),
    ensures
        ({
            let v0 = ek(v, 0);
            let v1 = ek(v, 1);
            let v2 = ek(v, 2);
            let t0 = twin_of(vs, v0);
            let t1 = twin_of(vs, v1);
            let t2 = twin_of(vs, v2);
            &&& has_edge(vs, t0) && has_edge(vs, t1) && has_edge(vs, t2)
            &&& twin_of(vs, t0) == v0 && twin_of(vs, t1) == v1 && twin_of(vs, t2) == v2
            &&& bubble_of(vs, t0) == bubble_of(vs, v2)
            &&& bubble_of(vs, t1) == bubble_of(vs, v0)
            &&& bubble_of(vs, t2) == bubble_of(vs, v1)
            &&& next_by(twins(vs), t0) == v2 && next_by(twins(vs), t1) == v0 && next_by(twins(vs), t2) == v1
            &&& t0 != v0 && t0 != v1 && t1 != v0 && t1 != v1 && t0 != t1
        }),
{
    reveal(lists_follow);
    let d = vs.dom();
    let tw = twins(vs);
    let v0 = ek(v, 0);
    let v1 = ek(v, 1);
    let v2 = ek(v, 2);
    assert(edge_set(d).contains(v0) && edge_set(d).contains(v1) && edge_set(d).contains(v2));
    assert(has_edge(vs, v0) && has_edge(vs, v1) && has_edge(vs, v2));
    let t0 = tw(v0);
    let t1 = tw(v1);
    let t2 = tw(v2);
    assert(edge_set(d).contains(t0) && edge_set(d).contains(t1) && edge_set(d).contains(t2));
    assert(tw(t0) == v0 && tw(t1) == v1 && tw(t2) == v2);
    assert(has_edge(vs, t0) && has_edge(vs, t1) && has_edge(vs, t2));
    assert(next_by(tw, t0) == v2 && next_by(tw, t1) == v0 && next_by(tw, t2) == v1);
    lemma_next_same_bubble(vs, bs, t0);
    lemma_next_same_bubble(vs, bs, t1);
    lemma_next_same_bubble(vs, bs, t2);
}

/// In a graph that offers the facts about its lists, the next edge on a
/// bubble claims the same bubble.
pub proof fn lemma_next_same_bubble(vs: Map<u64, Vertex>, bs: Map<u64, Bubble>, f: EdgeKey)
    requires
        lists_follow(vs, bs),
        has_edge(vs, f),
    ensures
        bubble_of(vs, next_by(twins(vs), f)) == bubble_of(vs, f),
        has_edge(vs, next_by(twins(vs), f)),
{
    reveal(lists_follow);
    let tw = twins(vs);
    let d = vs.dom();
    let b = bubble_of(vs, f).id;
    let l = bs[b].edges@;
    assert(bs.dom().contains(b) && l.contains(f));
    assert(list_good(tw, d, l));
    let i = choose|i: int| 0 <= i < l.len() && l[i] == f;
    assert(next_by(tw, l[i]) == l[(i + 1) % (l.len() as int)]);
    lemma_wrap(i + 1, l.len() as int);
    assert(l.contains(l[(i + 1) % (l.len() as int)]));
    assert(edge_set(d).contains(l[(i + 1) % (l.len() as int)]));
}

/// The twins after a spawn at `v` with the new vertices `k1`, `k2`, edge
/// by edge.
pub proof fn lemma_spawn_twins_at(vs: Map<u64, Vertex>, v: VertexKey, k1: VertexKey, k2: VertexKey)
    requires
        vs.dom().contains(v.id),
        !vs.dom().contains(k1.id),
        !vs.dom().contains(k2.id),
        k1 != k2,
        has_edge(vs, twin_of(vs, ek(v, 0))),
        has_edge(vs, twin_of(vs, ek(v, 1))),
        twin_of(vs, ek(v, 0)) != ek(v, 0) && twin_of(vs, ek(v, 0)) != ek(v, 1),
        twin_of(vs, ek(v, 1)) != ek(v, 0) && twin_of(vs, ek(v, 1)) != ek(v, 1),
        twin_of(vs, ek(v, 0)) != twin_of(vs, ek(v, 1)),
    ensures
        ({
            let tw2 = spawn_twins(vs, v, k1, k2);
            let t0 = twin_of(vs, ek(v, 0));
            let t1 = twin_of(vs, ek(v, 1));
            &&& tw2(ek(k1, 0)) == ek(k2, 0) && tw2(ek(k2, 0)) == ek(k1, 0)
            &&& tw2(ek(k1, 1)) == ek(v, 0) && tw2(ek(v, 0)) == ek(k1, 1)
            &&& tw2(ek(k1, 2)) == t0 && tw2(t0) == ek(k1, 2)
            &&& tw2(ek(k2, 1)) == t1 && tw2(t1) == ek(k2, 1)
            &&& tw2(ek(k2, 2)) == ek(v, 1) && tw2(ek(v, 1)) == ek(k2, 2)
            &&& forall|f: EdgeKey| #![trigger tw2(f)]
                f.vertex != k1 && f.vertex != k2 && f != ek(v, 0) && f != ek(v, 1) && f != t0 && f != t1
                ==> tw2(f) == twin_of(vs, f)
        }),
{
    let v0 = ek(v, 0);
    let v1 = ek(v, 1);
    let t0 = twin_of(vs, v0);
    let t1 = twin_of(vs, v1);
    let base = |f: EdgeKey| if f.vertex == k1 || f.vertex == k2 { unlinked_twin() } else { twin_of(vs, f) };
    let tw2 = spawn_twins(vs, v, k1, k2);
    assert(tw2 == linked(linked(linked(linked(linked(base, ek(k1, 0), ek(k2, 0)), ek(k1, 1), v0), ek(k1, 2), t0), ek(k2, 1), t1), ek(k2, 2), v1)) by {
        reveal(spawn_twins);
    }
    assert(v.id != k1.id && v.id != k2.id && t0.vertex.id != k1.id && t1.vertex.id != k2.id);
    assert(t0.vertex != k1 && t0.vertex != k2 && t1.vertex != k1 && t1.vertex != k2);
}

/// The twins after a spawn pair up the edges of the vertices with the two
/// new ones.
pub proof fn lemma_spawn_pairs(vs: Map<u64, Vertex>, v: VertexKey, k1: VertexKey, k2: VertexKey)
    requires
        pairs_up(twins(vs), vs.dom()),
        vs.dom().contains(v.id),
        !vs.dom().contains(k1.id),
        !vs.dom().contains(k2.id),
        k1 != k2,
        twin_of(vs, ek(v, 0)) != ek(v, 0) && twin_of(vs, ek(v, 0)) != ek(v, 1),
        twin_of(vs, ek(v, 1)) != ek(v, 0) && twin_of(vs, ek(v, 1)) != ek(v, 1),
    ensures
        pairs_up(spawn_twins(vs, v, k1, k2), vs.dom().insert(k1.id).insert(k2.id)),
{
    let d = vs.dom().insert(k1.id).insert(k2.id);
    let tw = twins(vs);
    let tw2 = spawn_twins(vs, v, k1, k2);
    let v0 = ek(v, 0);
    let v1 = ek(v, 1);
    assert(edge_set(vs.dom()).contains(v0) && edge_set(vs.dom()).contains(v1));
    let t0 = tw(v0);
    let t1 = tw(v1);
    let base = |f: EdgeKey| if f.vertex == k1 || f.vertex == k2 { unlinked_twin() } else { twin_of(vs, f) };
    assert(tw2 == linked(linked(linked(linked(linked(base, ek(k1, 0), ek(k2, 0)), ek(k1, 1), v0), ek(k1, 2), t0), ek(k2, 1), t1), ek(k2, 2), v1)) by {
        reveal(spawn_twins);
    }
    assert(edge_set(vs.dom()).contains(t0) && edge_set(vs.dom()).contains(t1));
    assert(tw(t0) == v0 && tw(t1) == v1);
    assert forall|f: EdgeKey| #[trigger] edge_set(d).contains(f) implies edge_set(d).contains(tw2(f)) && tw2(tw2(f)) == f by {
        if f.vertex.id == k1.id {
            assert(f.vertex == k1);
        } else if f.vertex.id == k2.id {
            assert(f.vertex == k2);
        } else {
            assert(f.vertex != k1 && f.vertex != k2);
            assert(edge_set(vs.dom()).contains(f));
            assert(edge_set(vs.dom()).contains(tw(f)) && tw(tw(f)) == f);
            if f != v0 && f != v1 && f != t0 && f != t1 {
                let g = tw(f);
                assert(g.vertex != k1 && g.vertex != k2);
                if g == v0 || g == v1 || g == t0 || g == t1 {
                    assert(f == tw(g));
                }
            }
        }
    }
}

/// A list that follows the twins `tw` still follows the twins `tw2` after
/// its edge at position `a` is replaced by `z`, when `z` leads where that
/// edge led, the edge before leads to `z`, and the twins of the rest stay.
pub proof fn lemma_update_follows(
    tw: spec_fn(EdgeKey) -> EdgeKey,
    tw2: spec_fn(EdgeKey) -> EdgeKey,
    l: Seq<EdgeKey>,
    a: int,
    z: EdgeKey,
)
    requires
        follows(tw, l),
        2 <= l.len(),
        0 <= a < l.len(),
        next_by(tw2, z) == next_by(tw, l[a]),
        next_by(tw2, l[(a + l.len() - 1) % (l.len() as int)]) == z,
        forall|i: int| 0 <= i < l.len() && i != a && i != (a + l.len() - 1) % (l.len() as int) ==>
            tw2(#[trigger] l[i]) == tw(l[i]),
    ensures
        follows(tw2, l.update(a, z)),
{
    let n = l.len() as int;
    let l2 = l.update(a, z);
    let c = (a + n - 1) % n;
    lemma_wrap(a + n - 1, n);
    lemma_wrap(a + 1, n);
    assert forall|i: int| 0 <= i < n implies #[trigger] next_by(tw2, l2[i]) == l2[(i + 1) % n] by {
        lemma_wrap(i + 1, n);
        assert(next_by(tw, l[i]) == l[(i + 1) % n]);
        if i == a {
            assert((i + 1) % n != a);
        } else if i == c {
            assert((i + 1) % n == a);
        } else {
            assert((i + 1) % n != a);
        }
    }
}

/// The setting of a spawn proof: a graph that offers the facts about its
/// lists, a vertex of it with no loop through its first two walls, and two
/// new vertex keys.
pub open spec fn spawn_fresh(vs: Map<u64, Vertex>, bs: Map<u64, Bubble>, v: VertexKey, k1: VertexKey, k2: VertexKey) -> bool {
    &&& lists_follow(vs, bs)
    &&& vs.dom().contains(v.id)
    &&& spawn_loopless(vs, v)
    &&& !vs.dom().contains(k1.id)
    &&& !vs.dom().contains(k2.id)
    &&& k1 != k2
    &&& issued_key(k1.id)
    &&& issued_key(k2.id)
    &&& spawn_closes(vs, v)
}

/// The facts every spawn proof starts from.
proof fn lemma_spawn_start(vs: Map<u64, Vertex>, bs: Map<u64, Bubble>, v: VertexKey, k1: VertexKey, k2: VertexKey)
    requires
        spawn_fresh(vs, bs, v, k1, k2),
    ensures
        pairs_up(twins(vs), vs.dom()),
        pairs_up(spawn_twins(vs, v, k1, k2), vs.dom().insert(k1.id).insert(k2.id)),
{
    reveal(lists_follow);
    lemma_spawn_around(vs, bs, v);
    lemma_spawn_pairs(vs, v, k1, k2);
}

/// After a spawn, the walk from the vertex's first edge goes round the new
/// triangle: that edge, the first edge of the first new vertex and the
/// third edge of the second.
proof fn lemma_spawn_triangle(vs: Map<u64, Vertex>, bs: Map<u64, Bubble>, v: VertexKey, k1: VertexKey, k2: VertexKey)
    requires
        spawn_fresh(vs, bs, v, k1, k2),
    ensures
        ({
            let d2 = vs.dom().insert(k1.id).insert(k2.id);
            let tw2 = spawn_twins(vs, v, k1, k2);
            &&& closes_by_at(tw2, d2, ek(v, 0), 3)
            &&& orbit_by(tw2, d2, ek(v, 0)).no_duplicates()
            &&& forall|f: EdgeKey| #![trigger orbit_by(tw2, d2, ek(v, 0)).contains(f)]
                orbit_by(tw2, d2, ek(v, 0)).contains(f) <==> (f == ek(v, 0) || f == ek(k1, 0) || f == ek(k2, 2))
        }),
{
    let d2 = vs.dom().insert(k1.id).insert(k2.id);
    let tw2 = spawn_twins(vs, v, k1, k2);
    lemma_spawn_start(vs, bs, v, k1, k2);
    lemma_spawn_around(vs, bs, v);
    lemma_spawn_twins_at(vs, v, k1, k2);
    let v0 = ek(v, 0);
    assert(walk_by(tw2, v0, 0) == v0);
    assert(walk_by(tw2, v0, 1) == ek(k1, 0));
    assert(walk_by(tw2, v0, 2) == ek(k2, 2));
    assert(walk_by(tw2, v0, 3) == v0);
    assert(edge_set(d2).contains(v0) && edge_set(d2).contains(ek(k1, 0)) && edge_set(d2).contains(ek(k2, 2)));
    assert forall|i: nat| i < 3 implies (#[trigger] walk_by(tw2, v0, i)).offset < 3
        && d2.contains(walk_by(tw2, v0, i).vertex.id) && tw2(walk_by(tw2, v0, i)).valid() by {
        assert(edge_set(d2).contains(walk_by(tw2, v0, i)));
        assert(edge_set(d2).contains(tw2(walk_by(tw2, v0, i))));
    }
    assert(closes_by_at(tw2, d2, v0, 3));
    lemma_orbit_nodup(tw2, d2, v0, 3);
    let o = orbit_by(tw2, d2, v0);
    assert forall|f: EdgeKey| o.contains(f) <==> (f == v0 || f == ek(k1, 0) || f == ek(k2, 2)) by {
        if f == v0 {
            assert(o[0] == f);
        } else if f == ek(k1, 0) {
            assert(o[1] == f);
        } else if f == ek(k2, 2) {
            assert(o[2] == f);
        }
    }
}

/// Neither of the first two edges of `v` is its own twin or the twin of
/// the other: no loop runs through the vertex's first two walls.
pub open spec fn spawn_loopless(vs: Map<u64, Vertex>, v: VertexKey) -> bool {
    let t0 = twin_of(vs, ek(v, 0));
    let t1 = twin_of(vs, ek(v, 1));
    &&& t0 != ek(v, 0) && t0 != ek(v, 1)
    &&& t1 != ek(v, 0) && t1 != ek(v, 1)
}

/// The twins a spawn's boundary of the first edge's bubble is traced with
/// once that edge gave way to the third edge of the first new vertex.
pub open spec fn ring_twins_update(vs: Map<u64, Vertex>, v: VertexKey, k1: VertexKey) -> spec_fn(EdgeKey) -> EdgeKey {
    |f: EdgeKey| if f == ek(k1, 2) { twin_of(vs, ek(v, 0)) } else if f == twin_of(vs, ek(v, 1)) { ek(k1, 0) } else { twin_of(vs, f) }
}

/// ... and once the first edge of the second new vertex came in before it.
pub open spec fn ring_twins_front(vs: Map<u64, Vertex>, v: VertexKey, k1: VertexKey, k2: VertexKey) -> spec_fn(EdgeKey) -> EdgeKey {
    |f: EdgeKey| if f == twin_of(vs, ek(v, 1)) { ek(k2, 1) } else if f == ek(k2, 0) { ek(k1, 0) }
        else { ring_twins_update(vs, v, k1)(f) }
}

/// ... and once the second edge of the second new vertex came in after the
/// vertex's second edge.
pub open spec fn ring_twins_side(vs: Map<u64, Vertex>, v: VertexKey, k1: VertexKey, k2: VertexKey) -> spec_fn(EdgeKey) -> EdgeKey {
    |f: EdgeKey| if f == ek(v, 1) { ek(k2, 2) } else if f == ek(k2, 1) { twin_of(vs, ek(v, 1)) }
        else { ring_twins_front(vs, v, k1, k2)(f) }
}

/// ... and once the second edge of the first new vertex came in after the
/// twin of the vertex's first edge.
pub open spec fn ring_twins_back(vs: Map<u64, Vertex>, v: VertexKey, k1: VertexKey, k2: VertexKey) -> spec_fn(EdgeKey) -> EdgeKey {
    |f: EdgeKey| if f == twin_of(vs, ek(v, 0)) { ek(k1, 2) } else if f == ek(k1, 1) { ek(v, 0) }
        else { ring_twins_side(vs, v, k1, k2)(f) }
}

/// The edges a spawn adds to the boundary of bubble `b`: the first edge of
/// the second new vertex and the third of the first, in place of `v`'s
/// first edge, when `b` is that edge's bubble; the second edge of the
/// second new vertex when `b` is the bubble of `v`'s second edge; the
/// second edge of the first new vertex when `b` is that of its third.
pub open spec fn spawn_gain(vs: Map<u64, Vertex>, v: VertexKey, k1: VertexKey, k2: VertexKey, b: u64, f: EdgeKey) -> bool {
    ||| b == bubble_of(vs, ek(v, 0)).id && (f == ek(k2, 0) || f == ek(k1, 2))
    ||| b == bubble_of(vs, ek(v, 1)).id && f == ek(k2, 1)
    ||| b == bubble_of(vs, ek(v, 2)).id && f == ek(k1, 1)
}

/// How many edges the boundary of bubble `b`, of `n` edges, has after a
/// spawn at `v`.
pub open spec fn spawn_size(vs: Map<u64, Vertex>, v: VertexKey, b: u64, n: int) -> int {
    n + (if b == bubble_of(vs, ek(v, 0)).id { 1int } else { 0int })
        + (if b == bubble_of(vs, ek(v, 1)).id { 1int } else { 0int })
        + (if b == bubble_of(vs, ek(v, 2)).id { 1int } else { 0int })
}

/// The first edit of the boundary of bubble `b` in a spawn: when `b` is the
/// bubble of `v`'s first edge, that edge gives way to the first edge of the
/// second new vertex and the third of the first.
#[verifier::rlimit(60)]
#[verifier::spinoff_prover]
proof fn lemma_ring_front(vs: Map<u64, Vertex>, bs: Map<u64, Bubble>, v: VertexKey, k1: VertexKey, k2: VertexKey, b: u64)
    -> (lf: Seq<EdgeKey>)
    requires
        spawn_fresh(vs, bs, v, k1, k2),
        bs.dom().contains(b),
    ensures
        follows(ring_twins_front(vs, v, k1, k2), lf),
        lf.no_duplicates(),
        1 <= lf.len(),
        lf.len() == bs[b].edges@.len() + (if b == bubble_of(vs, ek(v, 0)).id { 1int } else { 0int }),
        forall|f: EdgeKey| #[trigger] lf.contains(f) <==> ((bs[b].edges@.contains(f) && f != ek(v, 0))
            || (b == bubble_of(vs, ek(v, 0)).id && (f == ek(k2, 0) || f == ek(k1, 2)))),
        forall|i: int| 0 <= i < lf.len() ==> edge_set(vs.dom().insert(k1.id).insert(k2.id)).contains(#[trigger] lf[i]),
{
    let d = vs.dom();
    let d2 = d.insert(k1.id).insert(k2.id);
    let tw = twins(vs);
    lemma_spawn_around(vs, bs, v);
    reveal(lists_follow);
    let v0 = ek(v, 0);
    let v1 = ek(v, 1);
    let t0 = tw(v0);
    let t1 = tw(v1);
    let a0 = ek(k1, 0);
    let a2 = ek(k1, 2);
    let s = ek(k2, 0);
    let g1 = ring_twins_update(vs, v, k1);
    let gf = ring_twins_front(vs, v, k1, k2);
    let l = bs[b].edges@;
    let n = l.len() as int;
    assert(list_good(tw, d, l));
    assert(!l.contains(a2) && !l.contains(s) && !l.contains(ek(k2, 1)) && !l.contains(ek(k1, 1))) by {
        if l.contains(a2) {
            let i = choose|i: int| 0 <= i < n && l[i] == a2;
            assert(edge_set(d).contains(l[i]));
        }
        if l.contains(s) {
            let i = choose|i: int| 0 <= i < n && l[i] == s;
            assert(edge_set(d).contains(l[i]));
        }
        if l.contains(ek(k2, 1)) {
            let i = choose|i: int| 0 <= i < n && l[i] == ek(k2, 1);
            assert(edge_set(d).contains(l[i]));
        }
        if l.contains(ek(k1, 1)) {
            let i = choose|i: int| 0 <= i < n && l[i] == ek(k1, 1);
            assert(edge_set(d).contains(l[i]));
        }
    }
    if b == bubble_of(vs, v0).id {
        assert(has_edge(vs, v0));
        assert(l.contains(v0) && l.contains(t1));
        let a = choose|i: int| 0 <= i < n && l[i] == v0;
        let c = choose|i: int| 0 <= i < n && l[i] == t1;
        assert(n >= 2) by {
            if n < 2 {
                assert(a == 0 && c == 0);
            }
        }
        lemma_wrap(c + 1, n);
        assert(next_by(tw, l[c]) == l[(c + 1) % n]);
        assert(next_by(tw, t1) == v0);
        assert((c + 1) % n == a);
        lemma_wrap(a + n - 1, n);
        assert(c == (a + n - 1) % n);
        assert(c != a);
        assert(a2 != t1 && a2 != t0);
        assert forall|i: int| 0 <= i < n && i != a && i != (a + n - 1) % n implies g1(#[trigger] l[i]) == tw(l[i]) by {
            assert(l.contains(l[i]));
        }
        assert(next_by(g1, a2) == next_by(tw, l[a]));
        assert(next_by(g1, l[(a + n - 1) % n]) == a2);
        lemma_update_follows(tw, g1, l, a, a2);
        let lu = l.update(a, a2);
        assert(lu.no_duplicates()) by {
            assert forall|i: int, j: int| 0 <= i < j < n implies lu[i] != lu[j] by {
                if i != a && j != a {
                    assert(l[i] != l[j]);
                } else if i == a {
                    assert(l.contains(l[j]));
                } else {
                    assert(l.contains(l[i]));
                }
            }
        }
        assert(!lu.contains(s)) by {
            if lu.contains(s) {
                let i = choose|i: int| 0 <= i < n && lu[i] == s;
                if i != a {
                    assert(l.contains(l[i]));
                }
            }
        }
        assert(lu[c] == t1);
        assert(next_by(gf, lu[c]) == s);
        assert(next_by(gf, s) == next_by(g1, lu[c]));
        assert forall|i: int| 0 <= i < n && i != c implies next_by(gf, #[trigger] lu[i]) == next_by(g1, lu[i]) by {
            if i != a {
                assert(l.contains(l[i]));
                assert(l[i] != t1);
            }
        }
        lemma_insert_follows(g1, gf, lu, c, s);
        lemma_inserted_facts(lu, c, s);
        let lf = inserted(lu, c, s);
        assert forall|f: EdgeKey| #[trigger] lu.contains(f) <==> ((l.contains(f) && f != v0) || f == a2) by {
            if lu.contains(f) {
                let i = choose|i: int| 0 <= i < n && lu[i] == f;
                if i != a {
                    assert(l.contains(l[i]));
                }
            }
            if f == a2 {
                assert(lu[a] == f);
            }
            if l.contains(f) && f != v0 {
                let i = choose|i: int| 0 <= i < n && l[i] == f;
                assert(lu[i] == f);
            }
        }
        assert forall|i: int| 0 <= i < lf.len() implies edge_set(d2).contains(#[trigger] lf[i]) by {
            assert(lf.contains(lf[i]));
            if l.contains(lf[i]) {
                let k = choose|k: int| 0 <= k < n && l[k] == lf[i];
                assert(edge_set(d).contains(l[k]));
            }
        }
        lf
    } else {
        assert(!l.contains(v0) && !l.contains(t1)) by {
            if l.contains(v0) {
                assert(bubble_of(vs, v0).id == b);
            }
            if l.contains(t1) {
                assert(bubble_of(vs, t1).id == b);
            }
        }
        assert forall|i: int| 0 <= i < n implies #[trigger] next_by(gf, l[i]) == l[(i + 1) % n] by {
            assert(l.contains(l[i]));
            assert(next_by(tw, l[i]) == l[(i + 1) % n]);
        }
        assert forall|i: int| 0 <= i < n implies edge_set(d2).contains(#[trigger] l[i]) by {
            assert(edge_set(d).contains(l[i]));
        }
        l
    }
}

/// The second edit: when `b` is the bubble of `v`'s second edge, the second
/// edge of the second new vertex comes in right after that edge.
#[verifier::rlimit(60)]
#[verifier::spinoff_prover]
proof fn lemma_ring_side(vs: Map<u64, Vertex>, bs: Map<u64, Bubble>, v: VertexKey, k1: VertexKey, k2: VertexKey, b: u64,
    lf: Seq<EdgeKey>) -> (ls: Seq<EdgeKey>)
    requires
        spawn_fresh(vs, bs, v, k1, k2),
        bs.dom().contains(b),
        follows(ring_twins_front(vs, v, k1, k2), lf),
        lf.no_duplicates(),
        1 <= lf.len(),
        forall|f: EdgeKey| #[trigger] lf.contains(f) <==> ((bs[b].edges@.contains(f) && f != ek(v, 0))
            || (b == bubble_of(vs, ek(v, 0)).id && (f == ek(k2, 0) || f == ek(k1, 2)))),
        forall|i: int| 0 <= i < lf.len() ==> edge_set(vs.dom().insert(k1.id).insert(k2.id)).contains(#[trigger] lf[i]),
    ensures
        follows(ring_twins_side(vs, v, k1, k2), ls),
        ls.no_duplicates(),
        1 <= ls.len(),
        ls.len() == lf.len() + (if b == bubble_of(vs, ek(v, 1)).id { 1int } else { 0int }),
        forall|f: EdgeKey| #[trigger] ls.contains(f) <==> (lf.contains(f) || (b == bubble_of(vs, ek(v, 1)).id && f == ek(k2, 1))),
        forall|i: int| 0 <= i < ls.len() ==> edge_set(vs.dom().insert(k1.id).insert(k2.id)).contains(#[trigger] ls[i]),
{
    let d = vs.dom();
    let d2 = d.insert(k1.id).insert(k2.id);
    let tw = twins(vs);
    lemma_spawn_around(vs, bs, v);
    reveal(lists_follow);
    let v0 = ek(v, 0);
    let v1 = ek(v, 1);
    let t1 = tw(v1);
    let s = ek(k2, 1);
    let gf = ring_twins_front(vs, v, k1, k2);
    let gs = ring_twins_side(vs, v, k1, k2);
    let l = bs[b].edges@;
    let n = lf.len() as int;
    assert(list_good(tw, d, l));
    assert(!lf.contains(s)) by {
        if l.contains(s) {
            let i = choose|i: int| 0 <= i < l.len() && l[i] == s;
            assert(edge_set(d).contains(l[i]));
        }
    }
    if b == bubble_of(vs, v1).id {
        assert(has_edge(vs, v1));
        assert(l.contains(v1));
        assert(lf.contains(v1));
        let c = choose|i: int| 0 <= i < n && lf[i] == v1;
        assert(gf(v1) == t1);
        assert(next_by(gs, lf[c]) == s);
        assert(next_by(gs, s) == next_by(gf, lf[c]));
        assert forall|i: int| 0 <= i < n && i != c implies next_by(gs, #[trigger] lf[i]) == next_by(gf, lf[i]) by {
            assert(lf.contains(lf[i]));
        }
        lemma_insert_follows(gf, gs, lf, c, s);
        lemma_inserted_facts(lf, c, s);
        let ls = inserted(lf, c, s);
        assert forall|i: int| 0 <= i < ls.len() implies edge_set(d2).contains(#[trigger] ls[i]) by {
            assert(ls.contains(ls[i]));
            if lf.contains(ls[i]) {
                let k = choose|k: int| 0 <= k < n && lf[k] == ls[i];
            }
        }
        ls
    } else {
        assert(!lf.contains(v1)) by {
            if l.contains(v1) {
                assert(bubble_of(vs, v1).id == b);
            }
        }
        assert forall|i: int| 0 <= i < n implies #[trigger] next_by(gs, lf[i]) == lf[(i + 1) % n] by {
            assert(lf.contains(lf[i]));
            assert(next_by(gf, lf[i]) == lf[(i + 1) % n]);
        }
        lf
    }
}

/// The third edit: when `b` is the bubble of `v`'s third edge, the second
/// edge of the first new vertex comes in right after the twin of `v`'s
/// first edge.
#[verifier::rlimit(60)]
#[verifier::spinoff_prover]
proof fn lemma_ring_back(vs: Map<u64, Vertex>, bs: Map<u64, Bubble>, v: VertexKey, k1: VertexKey, k2: VertexKey, b: u64,
    ls: Seq<EdgeKey>) -> (lb: Seq<EdgeKey>)
    requires
        spawn_fresh(vs, bs, v, k1, k2),
        bs.dom().contains(b),
        follows(ring_twins_side(vs, v, k1, k2), ls),
        ls.no_duplicates(),
        1 <= ls.len(),
        forall|f: EdgeKey| #[trigger] ls.contains(f) <==> ((bs[b].edges@.contains(f) && f != ek(v, 0))
            || (b == bubble_of(vs, ek(v, 0)).id && (f == ek(k2, 0) || f == ek(k1, 2)))
            || (b == bubble_of(vs, ek(v, 1)).id && f == ek(k2, 1))),
        forall|i: int| 0 <= i < ls.len() ==> edge_set(vs.dom().insert(k1.id).insert(k2.id)).contains(#[trigger] ls[i]),
    ensures
        follows(ring_twins_back(vs, v, k1, k2), lb),
        lb.no_duplicates(),
        1 <= lb.len(),
        lb.len() == ls.len() + (if b == bubble_of(vs, ek(v, 2)).id { 1int } else { 0int }),
        forall|f: EdgeKey| #[trigger] lb.contains(f) <==> (ls.contains(f) || (b == bubble_of(vs, ek(v, 2)).id && f == ek(k1, 1))),
        forall|i: int| 0 <= i < lb.len() ==> edge_set(vs.dom().insert(k1.id).insert(k2.id)).contains(#[trigger] lb[i]),
{
    let d = vs.dom();
    let d2 = d.insert(k1.id).insert(k2.id);
    let tw = twins(vs);
    lemma_spawn_around(vs, bs, v);
    reveal(lists_follow);
    let v0 = ek(v, 0);
    let v1 = ek(v, 1);
    let t0 = tw(v0);
    let t1 = tw(v1);
    let s = ek(k1, 1);
    let gs = ring_twins_side(vs, v, k1, k2);
    let gb = ring_twins_back(vs, v, k1, k2);
    let l = bs[b].edges@;
    let n = ls.len() as int;
    assert(list_good(tw, d, l));
    assert(!ls.contains(s)) by {
        if l.contains(s) {
            let i = choose|i: int| 0 <= i < l.len() && l[i] == s;
            assert(edge_set(d).contains(l[i]));
        }
    }
    if b == bubble_of(vs, ek(v, 2)).id {
        assert(l.contains(t0));
        assert(ls.contains(t0));
        let c = choose|i: int| 0 <= i < n && ls[i] == t0;
        assert(gs(t0) == v0);
        assert(next_by(gb, ls[c]) == s);
        assert(next_by(gb, s) == next_by(gs, ls[c]));
        assert forall|i: int| 0 <= i < n && i != c implies next_by(gb, #[trigger] ls[i]) == next_by(gs, ls[i]) by {
            assert(ls.contains(ls[i]));
        }
        lemma_insert_follows(gs, gb, ls, c, s);
        lemma_inserted_facts(ls, c, s);
        let lb = inserted(ls, c, s);
        assert forall|i: int| 0 <= i < lb.len() implies edge_set(d2).contains(#[trigger] lb[i]) by {
            assert(lb.contains(lb[i]));
            if ls.contains(lb[i]) {
                let k = choose|k: int| 0 <= k < n && ls[k] == lb[i];
            }
        }
        lb
    } else {
        assert(!ls.contains(t0)) by {
            if l.contains(t0) {
                assert(bubble_of(vs, t0).id == b);
            }
        }
        assert forall|i: int| 0 <= i < n implies #[trigger] next_by(gb, ls[i]) == ls[(i + 1) % n] by {
            assert(ls.contains(ls[i]));
            assert(next_by(gs, ls[i]) == ls[(i + 1) % n]);
        }
        ls
    }
}

/// After a spawn, the walk round a bubble `b` of `v` from the edge `s` the
/// spawn retraces it from closes, repeats no edge, and passes the bubble's
/// old edges but `v`'s first, with the edges the spawn adds to it; this
/// holds also when two or three of the bubbles around `v` are one.
#[verifier::rlimit(60)]
#[verifier::spinoff_prover]
pub proof fn lemma_spawn_ring(vs: Map<u64, Vertex>, bs: Map<u64, Bubble>, v: VertexKey, k1: VertexKey, k2: VertexKey, b: u64, s: EdgeKey)
    requires
        spawn_fresh(vs, bs, v, k1, k2),
        s == ek(k2, 0) && b == bubble_of(vs, ek(v, 0)).id || s == ek(v, 1) && b == bubble_of(vs, ek(v, 1)).id
            || s == ek(v, 2) && b == bubble_of(vs, ek(v, 2)).id,
    ensures
        ({
            let d2 = vs.dom().insert(k1.id).insert(k2.id);
            let tw2 = spawn_twins(vs, v, k1, k2);
            let l = bs[b].edges@;
            &&& bs.dom().contains(b)
            &&& closes_by_at(tw2, d2, s, spawn_size(vs, v, b, l.len() as int) as nat)
            &&& orbit_by(tw2, d2, s).no_duplicates()
            &&& forall|f: EdgeKey| #![trigger orbit_by(tw2, d2, s).contains(f)] #![trigger l.contains(f)]
                orbit_by(tw2, d2, s).contains(f) <==> ((l.contains(f) && f != ek(v, 0)) || spawn_gain(vs, v, k1, k2, b, f))
        }),
{
    let d = vs.dom();
    let d2 = d.insert(k1.id).insert(k2.id);
    let tw = twins(vs);
    let tw2 = spawn_twins(vs, v, k1, k2);
    lemma_spawn_start(vs, bs, v, k1, k2);
    lemma_spawn_around(vs, bs, v);
    lemma_spawn_twins_at(vs, v, k1, k2);
    reveal(lists_follow);
    let v0 = ek(v, 0);
    let v1 = ek(v, 1);
    let v2 = ek(v, 2);
    let t0 = tw(v0);
    let t1 = tw(v1);
    assert(has_edge(vs, v0) && has_edge(vs, v1) && has_edge(vs, v2));
    assert(bs.dom().contains(b));
    let l = bs[b].edges@;
    let lf = lemma_ring_front(vs, bs, v, k1, k2, b);
    let ls = lemma_ring_side(vs, bs, v, k1, k2, b, lf);
    let lb = lemma_ring_back(vs, bs, v, k1, k2, b, ls);
    let gb = ring_twins_back(vs, v, k1, k2);
    assert(list_good(tw, d, l));
    assert forall|i: int| 0 <= i < lb.len() implies #[trigger] next_by(tw2, lb[i]) == lb[(i + 1) % (lb.len() as int)] by {
        let f = lb[i];
        assert(lb.contains(f));
        assert(next_by(gb, f) == lb[(i + 1) % (lb.len() as int)]);
        if l.contains(f) && f != v0 {
            let k = choose|k: int| 0 <= k < l.len() && l[k] == f;
            assert(edge_set(d).contains(l[k]));
            assert(f.vertex != k1 && f.vertex != k2);
        }
        assert(tw2(f) == gb(f));
    }
    assert(lb.contains(s)) by {
        if s == v2 {
            assert(l.contains(v2));
        } else if s == v1 {
            assert(l.contains(v1));
        }
    }
    let j = choose|j: int| 0 <= j < lb.len() && lb[j] == s;
    assert(closes_by(tw2, d2, s));
    lemma_follows_closes(tw2, d2, d2, lb, j);
}

/// After a spawn, the bubble each edge claims and the list of each bubble:
/// the four new cycles go to the new bubble and the bubbles of the
/// vertex's three edges, and everything else stays.
proof fn lemma_spawn_labels(
    vs: Map<u64, Vertex>,
    bs: Map<u64, Bubble>,
    v: VertexKey,
    k1: VertexKey,
    k2: VertexKey,
    nb: BubbleKey,
    style: BubbleStyle,
    vs2: Map<u64, Vertex>,
    bs2: Map<u64, Bubble>,
)
    requires
        spawn_fresh(vs, bs, v, k1, k2),
        spawned(vs, bs, vs2, bs2, v, k1, k2, nb, style),
    ensures
        ({
            let d2 = vs.dom().insert(k1.id).insert(k2.id);
            let tw2 = spawn_twins(vs, v, k1, k2);
            let on = orbit_by(tw2, d2, ek(v, 0));
            let o1 = orbit_by(tw2, d2, ek(v, 1));
            let o2 = orbit_by(tw2, d2, ek(v, 2));
            let o0 = orbit_by(tw2, d2, ek(k2, 0));
            let b0 = bubble_of(vs, ek(v, 0));
            let b1 = bubble_of(vs, ek(v, 1));
            let b2 = bubble_of(vs, ek(v, 2));
            &&& bs.dom().contains(b0.id) && bs.dom().contains(b1.id) && bs.dom().contains(b2.id)
            &&& nb.id != b0.id && nb.id != b1.id && nb.id != b2.id
            &&& forall|f: EdgeKey| #[trigger] has_edge(vs2, f) ==> bubble_of(vs2, f) == (
                if o0.contains(f) { b0 } else if o2.contains(f) { b2 } else if o1.contains(f) { b1 }
                else if on.contains(f) { nb } else if f.vertex == k1 || f.vertex == k2 { unlinked_bubble() }
                else { bubble_of(vs, f) })
            &&& bs2[nb.id].edges@ == on
            &&& forall|b: u64| #[trigger] bs.dom().contains(b) ==> bs2[b].edges@ == (
                if b == b0.id { o0 } else if b == b2.id { o2 } else if b == b1.id { o1 } else { bs[b].edges@ })
        }),
{
    reveal(lists_follow);
    let d2 = vs.dom().insert(k1.id).insert(k2.id);
    let tw2 = spawn_twins(vs, v, k1, k2);
    let on = orbit_by(tw2, d2, ek(v, 0));
    let o1 = orbit_by(tw2, d2, ek(v, 1));
    let o2 = orbit_by(tw2, d2, ek(v, 2));
    let o0 = orbit_by(tw2, d2, ek(k2, 0));
    let b0 = bubble_of(vs, ek(v, 0));
    let b1 = bubble_of(vs, ek(v, 1));
    let b2 = bubble_of(vs, ek(v, 2));
    assert(has_edge(vs, ek(v, 0)) && has_edge(vs, ek(v, 1)) && has_edge(vs, ek(v, 2)));
    assert(bs.dom().contains(b0.id) && bs.dom().contains(b1.id) && bs.dom().contains(b2.id));
    let chain = spawn_chain(vs, v, k1, k2, nb);
    assert(chain =~= seq![(nb, on), (b1, o1), (b2, o2), (b0, o0)]);
    reveal_with_fuel(chain_label, 5);
    reveal_with_fuel(chain_list, 5);
    assert(chain.drop_last() =~= seq![(nb, on), (b1, o1), (b2, o2)]);
    assert(chain.drop_last().drop_last() =~= seq![(nb, on), (b1, o1)]);
    assert(chain.drop_last().drop_last().drop_last() =~= seq![(nb, on)]);
    assert(chain.drop_last().drop_last().drop_last().drop_last() =~= Seq::<(BubbleKey, Seq<EdgeKey>)>::empty());
    assert(bs2[nb.id].edges@ == chain_list(chain, nb.id, Seq::empty()));
    assert forall|f: EdgeKey| #[trigger] has_edge(vs2, f) implies bubble_of(vs2, f) == (
        if o0.contains(f) { b0 } else if o2.contains(f) { b2 } else if o1.contains(f) { b1 }
        else if on.contains(f) { nb } else if f.vertex == k1 || f.vertex == k2 { unlinked_bubble() }
        else { bubble_of(vs, f) }) by {
    }
    assert forall|b: u64| #[trigger] bs.dom().contains(b) implies bs2[b].edges@ == (
        if b == b0.id { o0 } else if b == b2.id { o2 } else if b == b1.id { o1 } else { bs[b].edges@ }) by {
        assert(bs2[b].edges@ == chain_list(chain, b, bs[b].edges@));
    }
}

/// The setting of the proof that a spawn keeps the invariants: a graph
/// that keeps them and offers the facts about its lists, a vertex with
/// three different bubbles around it, and the graph after the spawn.
pub open spec fn spawn_setting(
    vs: Map<u64, Vertex>,
    bs: Map<u64, Bubble>,
    v: VertexKey,
    k1: VertexKey,
    k2: VertexKey,
    nb: BubbleKey,
    style: BubbleStyle,
    vs2: Map<u64, Vertex>,
    bs2: Map<u64, Bubble>,
) -> bool {
    &&& sane(vs, bs)
    &&& spawn_fresh(vs, bs, v, k1, k2)
    &&& spawned(vs, bs, vs2, bs2, v, k1, k2, nb, style)
}

/// After a spawn, the walks round the three bubbles of `v`, from the edges
/// the spawn retraces them from.
proof fn lemma_spawn_rings(vs: Map<u64, Vertex>, bs: Map<u64, Bubble>, v: VertexKey, k1: VertexKey, k2: VertexKey)
    requires
        spawn_fresh(vs, bs, v, k1, k2),
    ensures
        ({
            let d2 = vs.dom().insert(k1.id).insert(k2.id);
            let tw2 = spawn_twins(vs, v, k1, k2);
            let o0 = orbit_by(tw2, d2, ek(k2, 0));
            let o1 = orbit_by(tw2, d2, ek(v, 1));
            let o2 = orbit_by(tw2, d2, ek(v, 2));
            let b0 = bubble_of(vs, ek(v, 0)).id;
            let b1 = bubble_of(vs, ek(v, 1)).id;
            let b2 = bubble_of(vs, ek(v, 2)).id;
            let l0 = bs[b0].edges@;
            let l1 = bs[b1].edges@;
            let l2 = bs[b2].edges@;
            &&& bs.dom().contains(b0) && bs.dom().contains(b1) && bs.dom().contains(b2)
            &&& closes_by_at(tw2, d2, ek(k2, 0), spawn_size(vs, v, b0, l0.len() as int) as nat)
            &&& closes_by_at(tw2, d2, ek(v, 1), spawn_size(vs, v, b1, l1.len() as int) as nat)
            &&& closes_by_at(tw2, d2, ek(v, 2), spawn_size(vs, v, b2, l2.len() as int) as nat)
            &&& o0.no_duplicates() && o1.no_duplicates() && o2.no_duplicates()
            &&& forall|f: EdgeKey| #![trigger o0.contains(f)]
                o0.contains(f) <==> ((l0.contains(f) && f != ek(v, 0)) || spawn_gain(vs, v, k1, k2, b0, f))
            &&& forall|f: EdgeKey| #![trigger o1.contains(f)]
                o1.contains(f) <==> ((l1.contains(f) && f != ek(v, 0)) || spawn_gain(vs, v, k1, k2, b1, f))
            &&& forall|f: EdgeKey| #![trigger o2.contains(f)]
                o2.contains(f) <==> ((l2.contains(f) && f != ek(v, 0)) || spawn_gain(vs, v, k1, k2, b2, f))
        }),
{
    lemma_spawn_ring(vs, bs, v, k1, k2, bubble_of(vs, ek(v, 0)).id, ek(k2, 0));
    lemma_spawn_ring(vs, bs, v, k1, k2, bubble_of(vs, ek(v, 1)).id, ek(v, 1));
    lemma_spawn_ring(vs, bs, v, k1, k2, bubble_of(vs, ek(v, 2)).id, ek(v, 2));
}

/// An edge of a list of the graph before a spawn is an edge of one of its
/// old vertices, and claims the list's bubble.
proof fn lemma_spawn_old_edge(vs: Map<u64, Vertex>, bs: Map<u64, Bubble>, v: VertexKey, k1: VertexKey, k2: VertexKey, b: u64, f: EdgeKey)
    requires
        spawn_fresh(vs, bs, v, k1, k2),
        bs.dom().contains(b),
        bs[b].edges@.contains(f),
    ensures
        has_edge(vs, f),
        f.vertex != k1 && f.vertex != k2,
        bubble_of(vs, f).id == b,
{
    reveal(lists_follow);
    let l = bs[b].edges@;
    assert(list_good(twins(vs), vs.dom(), l));
    let i = choose|i: int| 0 <= i < l.len() && l[i] == f;
    assert(edge_set(vs.dom()).contains(l[i]));
}

/// After a spawn, an edge of the list of bubble `b` is an edge of the
/// graph and claims `b`.
#[verifier::rlimit(60)]
#[verifier::spinoff_prover]
proof fn lemma_spawn_claim_one(
    vs: Map<u64, Vertex>,
    bs: Map<u64, Bubble>,
    v: VertexKey,
    k1: VertexKey,
    k2: VertexKey,
    nb: BubbleKey,
    style: BubbleStyle,
    vs2: Map<u64, Vertex>,
    bs2: Map<u64, Bubble>,
    b: u64,
    f: EdgeKey,
)
    requires
        spawn_setting(vs, bs, v, k1, k2, nb, style, vs2, bs2),
        bs2.dom().contains(b),
        bs2[b].edges@.contains(f),
    ensures
        has_edge(vs2, f),
        bubble_of(vs2, f).id == b,
{
    let d = vs.dom();
    let d2 = d.insert(k1.id).insert(k2.id);
    let tw2 = spawn_twins(vs, v, k1, k2);
    let on = orbit_by(tw2, d2, ek(v, 0));
    let o1 = orbit_by(tw2, d2, ek(v, 1));
    let o2 = orbit_by(tw2, d2, ek(v, 2));
    let o0 = orbit_by(tw2, d2, ek(k2, 0));
    let b0 = bubble_of(vs, ek(v, 0)).id;
    let b1 = bubble_of(vs, ek(v, 1)).id;
    let b2 = bubble_of(vs, ek(v, 2)).id;
    lemma_spawn_triangle(vs, bs, v, k1, k2);
    lemma_spawn_rings(vs, bs, v, k1, k2);
    lemma_spawn_labels(vs, bs, v, k1, k2, nb, style, vs2, bs2);
    let l0 = bs[b0].edges@;
    let l1 = bs[b1].edges@;
    let l2 = bs[b2].edges@;
    assert(vs2.dom() == d2);
    assert(has_edge(vs, ek(v, 0)));
    if l0.contains(f) {
        lemma_spawn_old_edge(vs, bs, v, k1, k2, b0, f);
    }
    if l1.contains(f) {
        lemma_spawn_old_edge(vs, bs, v, k1, k2, b1, f);
    }
    if l2.contains(f) {
        lemma_spawn_old_edge(vs, bs, v, k1, k2, b2, f);
    }
    if b == nb.id {
        assert(on.contains(f));
        assert(f == ek(v, 0) || f == ek(k1, 0) || f == ek(k2, 2));
        assert(!o0.contains(f) && !o1.contains(f) && !o2.contains(f));
        assert(edge_set(d2).contains(f));
        assert(has_edge(vs2, f));
    } else {
        assert(bs.dom().contains(b));
        if b == b0 {
            assert(o0.contains(f));
        } else if b == b2 {
            assert(o2.contains(f));
            assert(!o0.contains(f));
        } else if b == b1 {
            assert(o1.contains(f));
            assert(!o0.contains(f) && !o2.contains(f));
        } else {
            lemma_spawn_old_edge(vs, bs, v, k1, k2, b, f);
            assert(!l0.contains(f) && !l1.contains(f) && !l2.contains(f));
            assert(f != ek(v, 0));
            assert(!o0.contains(f) && !o1.contains(f) && !o2.contains(f) && !on.contains(f));
        }
        assert(edge_set(d2).contains(f));
        assert(has_edge(vs2, f));
    }
}

/// After a spawn, each edge of each list claims the list's bubble.
proof fn lemma_spawn_claims(
    vs: Map<u64, Vertex>,
    bs: Map<u64, Bubble>,
    v: VertexKey,
    k1: VertexKey,
    k2: VertexKey,
    nb: BubbleKey,
    style: BubbleStyle,
    vs2: Map<u64, Vertex>,
    bs2: Map<u64, Bubble>,
)
    requires
        spawn_setting(vs, bs, v, k1, k2, nb, style, vs2, bs2),
    ensures
        forall|b: u64, f: EdgeKey| bs2.dom().contains(b) && #[trigger] bs2[b].edges@.contains(f) ==>
            has_edge(vs2, f) && bubble_of(vs2, f).id == b,
{
    assert forall|b: u64, f: EdgeKey| bs2.dom().contains(b) && #[trigger] bs2[b].edges@.contains(f) implies
        has_edge(vs2, f) && bubble_of(vs2, f).id == b by {
        lemma_spawn_claim_one(vs, bs, v, k1, k2, nb, style, vs2, bs2, b, f);
    }
}

/// After a spawn, a position of the list of a bubble that the spawn leaves
/// alone is in order.
#[verifier::rlimit(40)]
#[verifier::spinoff_prover]
proof fn lemma_spawn_untouched(
    vs: Map<u64, Vertex>,
    bs: Map<u64, Bubble>,
    v: VertexKey,
    k1: VertexKey,
    k2: VertexKey,
    nb: BubbleKey,
    style: BubbleStyle,
    vs2: Map<u64, Vertex>,
    bs2: Map<u64, Bubble>,
    b: u64,
    i: int,
)
    requires
        spawn_setting(vs, bs, v, k1, k2, nb, style, vs2, bs2),
        bs.dom().contains(b),
        b != bubble_of(vs, ek(v, 0)).id,
        b != bubble_of(vs, ek(v, 1)).id,
        b != bubble_of(vs, ek(v, 2)).id,
        bs2[b].edges@ == bs[b].edges@,
        0 <= i < bs[b].edges@.len(),
        bubble_of(vs2, bs[b].edges@[i]).id == b,
    ensures
        boundary_ok(vs2, bs2, b, i),
{
    reveal(lists_follow);
    let d = vs.dom();
    let tw = twins(vs);
    let tw2 = spawn_twins(vs, v, k1, k2);
    lemma_spawn_around(vs, bs, v);
    lemma_spawn_twins_at(vs, v, k1, k2);
    let v0 = ek(v, 0);
    let v1 = ek(v, 1);
    let t0 = tw(v0);
    let t1 = tw(v1);
    let l = bs[b].edges@;
    let f = l[i];
    assert(list_good(tw, d, l));
    assert(edge_set(d).contains(f));
    assert(l.contains(f));
    assert(bubble_of(vs, f).id == b);
    assert(has_edge(vs, v0) && has_edge(vs, v1));
    assert(f != v0 && f != v1 && f != t0 && f != t1);
    assert(f.vertex != k1 && f.vertex != k2);
    let g = tw(f);
    assert(edge_set(d).contains(g) && tw(g) == f);
    assert(g.vertex != k1 && g.vertex != k2);
    assert(g != v0 && g != v1 && g != t0 && g != t1);
    assert(tw2(f) == g && tw2(g) == f);
    assert(vs2.dom() == d.insert(k1.id).insert(k2.id));
    assert(twins_are(vs2, tw2));
    assert(has_edge(vs2, f) && has_edge(vs2, g));
    assert(twin_of(vs2, f) == g);
    assert(twin_of(vs2, g) == f);
    assert(next_by(tw, l[i]) == l[(i + 1) % (l.len() as int)]);
    assert(next_edge(vs2, f) == next_by(tw, f));
}

/// After a spawn, every position of the list of bubble `b` is in order.
#[verifier::rlimit(40)]
#[verifier::spinoff_prover]
proof fn lemma_spawn_boundary_one(
    vs: Map<u64, Vertex>,
    bs: Map<u64, Bubble>,
    v: VertexKey,
    k1: VertexKey,
    k2: VertexKey,
    nb: BubbleKey,
    style: BubbleStyle,
    vs2: Map<u64, Vertex>,
    bs2: Map<u64, Bubble>,
    b: u64,
)
    requires
        spawn_setting(vs, bs, v, k1, k2, nb, style, vs2, bs2),
        bs2.dom().contains(b),
        forall|b2: u64, f: EdgeKey| bs2.dom().contains(b2) && #[trigger] bs2[b2].edges@.contains(f) ==>
            has_edge(vs2, f) && bubble_of(vs2, f).id == b2,
    ensures
        forall|i: int| 0 <= i < bs2[b].edges@.len() ==> #[trigger] boundary_ok(vs2, bs2, b, i),
{
    let d2 = vs.dom().insert(k1.id).insert(k2.id);
    let tw2 = spawn_twins(vs, v, k1, k2);
    let b0 = bubble_of(vs, ek(v, 0)).id;
    let b1 = bubble_of(vs, ek(v, 1)).id;
    let b2 = bubble_of(vs, ek(v, 2)).id;
    lemma_spawn_start(vs, bs, v, k1, k2);
    lemma_spawn_triangle(vs, bs, v, k1, k2);
    lemma_spawn_rings(vs, bs, v, k1, k2);
    lemma_spawn_labels(vs, bs, v, k1, k2, nb, style, vs2, bs2);
    assert(vs2.dom() == d2 && twins_are(vs2, tw2));
    if b == nb.id {
        lemma_orbit_list_ok(vs2, bs2, tw2, ek(v, 0), 3, b);
    } else {
        assert(bs.dom().contains(b));
        if b == b0 {
            lemma_orbit_list_ok(vs2, bs2, tw2, ek(k2, 0), spawn_size(vs, v, b0, bs[b0].edges@.len() as int) as nat, b);
        } else if b == b2 {
            lemma_orbit_list_ok(vs2, bs2, tw2, ek(v, 2), spawn_size(vs, v, b2, bs[b2].edges@.len() as int) as nat, b);
        } else if b == b1 {
            lemma_orbit_list_ok(vs2, bs2, tw2, ek(v, 1), spawn_size(vs, v, b1, bs[b1].edges@.len() as int) as nat, b);
        } else {
            assert(bs2[b].edges@ == bs[b].edges@);
            assert forall|i: int| 0 <= i < bs2[b].edges@.len() implies #[trigger] boundary_ok(vs2, bs2, b, i) by {
                assert(bs2[b].edges@.contains(bs[b].edges@[i]));
                lemma_spawn_untouched(vs, bs, v, k1, k2, nb, style, vs2, bs2, b, i);
            }
        }
    }
}

/// After a spawn, the edge `f` is in some list.
#[verifier::rlimit(60)]
#[verifier::spinoff_prover]
proof fn lemma_spawn_listed_one(
    vs: Map<u64, Vertex>,
    bs: Map<u64, Bubble>,
    v: VertexKey,
    k1: VertexKey,
    k2: VertexKey,
    nb: BubbleKey,
    style: BubbleStyle,
    vs2: Map<u64, Vertex>,
    bs2: Map<u64, Bubble>,
    f: EdgeKey,
)
    requires
        spawn_setting(vs, bs, v, k1, k2, nb, style, vs2, bs2),
        has_edge(vs2, f),
    ensures
        listed(bs2, f),
{
    let d = vs.dom();
    let d2 = d.insert(k1.id).insert(k2.id);
    let tw2 = spawn_twins(vs, v, k1, k2);
    let on = orbit_by(tw2, d2, ek(v, 0));
    let o1 = orbit_by(tw2, d2, ek(v, 1));
    let o2 = orbit_by(tw2, d2, ek(v, 2));
    let o0 = orbit_by(tw2, d2, ek(k2, 0));
    let b0 = bubble_of(vs, ek(v, 0)).id;
    let b1 = bubble_of(vs, ek(v, 1)).id;
    let b2 = bubble_of(vs, ek(v, 2)).id;
    lemma_spawn_triangle(vs, bs, v, k1, k2);
    lemma_spawn_rings(vs, bs, v, k1, k2);
    lemma_spawn_labels(vs, bs, v, k1, k2, nb, style, vs2, bs2);
    reveal(lists_follow);
    assert(vs2.dom() == d2);
    assert(bs2.dom() == bs.dom().insert(nb.id));
    let b: u64 = if f.vertex == k1 {
        if f.offset == 0 { nb.id } else if f.offset == 1 { b2 } else { b0 }
    } else if f.vertex == k2 {
        if f.offset == 0 { b0 } else if f.offset == 1 { b1 } else { nb.id }
    } else if f == ek(v, 0) {
        nb.id
    } else {
        bubble_of(vs, f).id
    };
    if f.vertex == k1 {
        assert(f == ek(k1, f.offset));
    } else if f.vertex == k2 {
        assert(f == ek(k2, f.offset));
    } else if f != ek(v, 0) {
        assert(f.vertex.id != k1.id && f.vertex.id != k2.id);
        assert(has_edge(vs, f));
        assert(bs.dom().contains(b) && bs[b].edges@.contains(f));
    }
    if b == nb.id {
        assert(on.contains(f));
    } else if b == b0 {
        assert(o0.contains(f));
    } else if b == b2 {
        assert(o2.contains(f));
    } else if b == b1 {
        assert(o1.contains(f));
    }
    assert(bs2.dom().contains(b));
    assert(bs2[b].edges@.contains(f));
    let l = bs2[b].edges@;
    let i = choose|i: int| 0 <= i < l.len() && l[i] == f;
    assert(bs2[b].edges@[i] == f);
}

/// After a spawn, the lists keep their invariants.
#[verifier::rlimit(40)]
proof fn lemma_spawn_listing(
    vs: Map<u64, Vertex>,
    bs: Map<u64, Bubble>,
    v: VertexKey,
    k1: VertexKey,
    k2: VertexKey,
    nb: BubbleKey,
    style: BubbleStyle,
    vs2: Map<u64, Vertex>,
    bs2: Map<u64, Bubble>,
)
    requires
        spawn_setting(vs, bs, v, k1, k2, nb, style, vs2, bs2),
        !style.is_open_air(),
    ensures
        listing_ok(vs2, bs2),
{
    let d = vs.dom();
    let d2 = d.insert(k1.id).insert(k2.id);
    let tw2 = spawn_twins(vs, v, k1, k2);
    lemma_spawn_claims(vs, bs, v, k1, k2, nb, style, vs2, bs2);
    assert forall|b: u64, i: int| bs2.dom().contains(b) && 0 <= i < bs2[b].edges@.len() implies
        #[trigger] boundary_ok(vs2, bs2, b, i) by {
        lemma_spawn_boundary_one(vs, bs, v, k1, k2, nb, style, vs2, bs2, b);
    }
    assert forall|f: EdgeKey| #[trigger] has_edge(vs2, f) implies listed(bs2, f) by {
        lemma_spawn_listed_one(vs, bs, v, k1, k2, nb, style, vs2, bs2, f);
    }
    lemma_spawn_triangle(vs, bs, v, k1, k2);
    lemma_spawn_rings(vs, bs, v, k1, k2);
    lemma_spawn_labels(vs, bs, v, k1, k2, nb, style, vs2, bs2);
    reveal(lists_follow);
    let b0 = bubble_of(vs, ek(v, 0)).id;
    let b1 = bubble_of(vs, ek(v, 1)).id;
    let b2 = bubble_of(vs, ek(v, 2)).id;
    assert(orbit_by(tw2, d2, ek(k2, 0)).contains(ek(k2, 0)));
    assert(orbit_by(tw2, d2, ek(v, 1)).contains(ek(v, 1))) by {
        assert(has_edge(vs, ek(v, 1)));
        assert(bs[b1].edges@.contains(ek(v, 1)));
    }
    assert(orbit_by(tw2, d2, ek(v, 2)).contains(ek(v, 2))) by {
        assert(has_edge(vs, ek(v, 2)));
        assert(bs[b2].edges@.contains(ek(v, 2)));
    }
    assert forall|b: u64| #[trigger] bs2.dom().contains(b) implies bs2[b].edges@.len() > 0 by {
        if b != nb.id {
            assert(bs.dom().contains(b));
            assert(list_good(twins(vs), d, bs[b].edges@));
        }
    }
    assert forall|b1: u64, i1: int, b2: u64, i2: int|
        bs2.dom().contains(b1) && 0 <= i1 < bs2[b1].edges@.len() && bs2.dom().contains(b2) && 0 <= i2 < bs2[b2].edges@.len()
        && (b1 != b2 || i1 != i2) implies #[trigger] bs2[b1].edges@[i1] != #[trigger] bs2[b2].edges@[i2] by {
        assert(boundary_ok(vs2, bs2, b1, i1) && boundary_ok(vs2, bs2, b2, i2));
        if b1 == b2 && b1 != nb.id {
            assert(bs.dom().contains(b1));
            assert(list_good(twins(vs), d, bs[b1].edges@));
            assert(bs2[b1].edges@.no_duplicates());
        }
    }
    let o = choose|o: u64| sole_open_air(bs, o);
    assert(sole_open_air(bs2, o)) by {
        assert forall|j: u64| bs2.dom().contains(j) && (#[trigger] bs2[j].style).is_open_air() implies j == o by {
            if j != nb.id {
                assert(bs.dom().contains(j));
            }
        }
    }
}

/// A spawn keeps the invariants of the graph: in a graph that keeps them, a
/// spawn at a vertex with no loop through its first two walls, whose walks
/// close as the spawn needs, with a style that is not the open air, leaves
/// a graph that keeps them too, also where a bubble meets the vertex twice
/// or three times; the new bubble is the triangle of the vertex's first
/// edge, the first edge of the first new vertex and the third edge of the
/// second.
pub proof fn law_spawn_keeps_sane(
    vs: Map<u64, Vertex>,
    bs: Map<u64, Bubble>,
    v: VertexKey,
    k1: VertexKey,
    k2: VertexKey,
    nb: BubbleKey,
    style: BubbleStyle,
    vs2: Map<u64, Vertex>,
    bs2: Map<u64, Bubble>,
)
    requires
        keys_valid(vs, bs),
        sane(vs, bs),
        spawn_reads_ok(vs, bs, v),
        spawn_loopless(vs, v),
        !style.is_open_air(),
        spawned(vs, bs, vs2, bs2, v, k1, k2, nb, style),
    ensures
        sane(vs2, bs2),
        bs2[nb.id].edges@ == seq![ek(v, 0), ek(k1, 0), ek(k2, 2)],
{
    lemma_sane_lists_follow(vs, bs);
    assert(spawn_setting(vs, bs, v, k1, k2, nb, style, vs2, bs2));
    lemma_spawn_listing(vs, bs, v, k1, k2, nb, style, vs2, bs2);
    assert(vs2.dom().len() == vs.dom().len() + 2);
    assert(bs2.dom().len() == bs.dom().len() + 1);
    assert(euler_ok(vs2, bs2));
    lemma_spawn_triangle(vs, bs, v, k1, k2);
    lemma_spawn_labels(vs, bs, v, k1, k2, nb, style, vs2, bs2);
    lemma_spawn_start(vs, bs, v, k1, k2);
    let d2 = vs.dom().insert(k1.id).insert(k2.id);
    let tw2 = spawn_twins(vs, v, k1, k2);
    lemma_orbit_nodup(tw2, d2, ek(v, 0), 3);
    lemma_spawn_around(vs, bs, v);
    lemma_spawn_twins_at(vs, v, k1, k2);
    assert(walk_by(tw2, ek(v, 0), 0) == ek(v, 0));
    assert(walk_by(tw2, ek(v, 0), 1) == ek(k1, 0));
    assert(walk_by(tw2, ek(v, 0), 2) == ek(k2, 2));
    assert(orbit_by(tw2, d2, ek(v, 0)) =~= seq![ek(v, 0), ek(k1, 0), ek(k2, 2)]);
}

} // verus!
