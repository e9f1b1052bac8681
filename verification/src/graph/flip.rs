//! What a slide does to the boundaries around the wall: the two bubbles on
//! its sides each lose one edge and the two bubbles at its ends each gain
//! one, and every other boundary stays as it was.
use vstd::prelude::*;
use crate::graph::bubble::{Bubble, BubbleKey};
use crate::graph::closure::{
    edge_set, lemma_sane_pairs, lemma_slide_pairs, pairs_up, slide_six_distinct,
};
use crate::graph::edge::EdgeKey;
use crate::graph::fold::{fold_distinct, fold_setting, lemma_fold_listing};
use crate::graph::spec::{
    boundary_ok, bubble_of, chain_label, chain_list, closes_by, closes_by_at, euler_ok, graph_ok, keys_valid, listed, listing_ok,
    orbit_by,
    linked, relinked_rebubbled, sane, slide_chain, slide_closes, slide_flips, slide_post, slide_reads_ok, slide_trace,
    slide_twins, slides_ok, slides_post, sole_open_air, twin_of, twins,
    twins_are,
    walk_by,
};
use crate::graph::vertex::{has_edge, next_edge, Vertex};
use vstd::arithmetic::div_mod::{lemma_mod_multiples_vanish, lemma_small_mod};

verus! {

/// The next edge on a bubble when the twins are `tw`.
pub open spec fn next_by(tw: spec_fn(EdgeKey) -> EdgeKey, f: EdgeKey) -> EdgeKey {
    tw(f).spec_prev_on_vertex()
}

/// The list follows the twins `tw`: each edge is followed by the next one
/// on its bubble, cyclically.
pub open spec fn follows(tw: spec_fn(EdgeKey) -> EdgeKey, l: Seq<EdgeKey>) -> bool {
    forall|i: int| 0 <= i < l.len() ==> #[trigger] next_by(tw, l[i]) == l[(i + 1) % (l.len() as int)]
}

/// An index below twice the length wraps round at most once.
pub proof fn lemma_wrap(p: int, n: int)
    requires
        0 < n,
        0 <= p < 2 * n,
    ensures
        p % n == (if p < n { p } else { p - n }),
{
    if p < n {
        lemma_small_mod(p as nat, n as nat);
    } else {
        lemma_small_mod((p - n) as nat, n as nat);
        lemma_mod_multiples_vanish(1, p - n, n);
    }
}

/// A walk one step longer is a walk from the next edge.
pub proof fn lemma_walk_shift(tw: spec_fn(EdgeKey) -> EdgeKey, s: EdgeKey, k: nat)
    ensures
        walk_by(tw, s, k + 1) == walk_by(tw, next_by(tw, s), k),
    decreases k,
{
    assert(walk_by(tw, s, k + 1) == next_by(tw, walk_by(tw, s, k)));
    if k > 0 {
        lemma_walk_shift(tw, s, (k - 1) as nat);
        assert(walk_by(tw, next_by(tw, s), k) == next_by(tw, walk_by(tw, next_by(tw, s), (k - 1) as nat)));
    } else {
        assert(walk_by(tw, s, 0) == s);
        assert(walk_by(tw, next_by(tw, s), 0) == next_by(tw, s));
    }
}

/// Along a stretch of `len` steps where the twins `tw` agree with the
/// list, the walk from `l[j]` runs along the list.
pub proof fn lemma_follow(tw: spec_fn(EdgeKey) -> EdgeKey, l: Seq<EdgeKey>, j: int, len: nat, k: nat)
    requires
        l.len() > 0,
        0 <= j < l.len(),
        k <= len,
        forall|m: int| 0 <= m < len ==> #[trigger] next_by(tw, l[(j + m) % (l.len() as int)]) == l[(j + m + 1) % (l.len() as int)],
    ensures
        walk_by(tw, l[j], k) == l[(j + k) % (l.len() as int)],
    decreases k,
{
    let n = l.len() as int;
    if k == 0 {
        lemma_wrap(j, n);
    } else {
        lemma_follow(tw, l, j, len, (k - 1) as nat);
        let m = k - 1;
        assert(next_by(tw, l[(j + m) % n]) == l[(j + m + 1) % n]);
    }
}

/// The walk closes after `n` steps only.
pub proof fn lemma_closes_by_unique(tw: spec_fn(EdgeKey) -> EdgeKey, d: Set<u64>, e: EdgeKey, n: nat)
    requires
        closes_by_at(tw, d, e, n),
    ensures
        orbit_by(tw, d, e) == Seq::new(n, |i: int| walk_by(tw, e, i as nat)),
{
    let m = choose|m: nat| closes_by_at(tw, d, e, m);
    assert(closes_by_at(tw, d, e, m));
    if m < n {
        assert(walk_by(tw, e, m) != e);
    } else if n < m {
        assert(walk_by(tw, e, n) != e);
    }
}

/// A walk that first comes back after `n` steps, and that closes within a
/// thousand steps among some vertices, comes back within a thousand steps.
pub proof fn lemma_return_bound(tw: spec_fn(EdgeKey) -> EdgeKey, dc: Set<u64>, s: EdgeKey, n: nat)
    requires
        1 <= n,
        walk_by(tw, s, n) == s,
        forall|i: nat| 0 < i < n ==> #[trigger] walk_by(tw, s, i) != s,
        closes_by(tw, dc, s),
    ensures
        n <= 1000,
{
    let m = choose|m: nat| closes_by_at(tw, dc, s, m);
    assert(closes_by_at(tw, dc, s, m));
    if m < n {
        assert(walk_by(tw, s, m) != s);
    } else if n < m {
        assert(walk_by(tw, s, n) != s);
    }
}

/// The list `l` without the edge after position `a`, starting at `a`.
pub open spec fn shrunk(l: Seq<EdgeKey>, a: int) -> Seq<EdgeKey> {
    Seq::new((l.len() - 1) as nat, |k: int| if k == 0 { l[a] } else { l[(a + 1 + k) % (l.len() as int)] })
}

/// The list `l` from the edge after position `c` round to position `c`,
/// behind the edge `s`.
pub open spec fn grown(l: Seq<EdgeKey>, c: int, s: EdgeKey) -> Seq<EdgeKey> {
    Seq::new(l.len() + 1, |k: int| if k == 0 { s } else { l[(c + k) % (l.len() as int)] })
}

/// A boundary loses the edge after `u`: when the new twins `tw2` send `u`
/// where the old ones sent that edge, and agree with the old ones on the
/// rest of the boundary, the walk from `u` under `tw2` runs along the old
/// boundary without that edge.
pub proof fn lemma_shrink(
    tw: spec_fn(EdgeKey) -> EdgeKey,
    tw2: spec_fn(EdgeKey) -> EdgeKey,
    d: Set<u64>,
    dc: Set<u64>,
    l: Seq<EdgeKey>,
    a: int,
)
    requires
        2 <= l.len(),
        closes_by(tw2, dc, l[a]),
        0 <= a < l.len(),
        l.no_duplicates(),
        follows(tw, l),
        pairs_up(tw2, d),
        forall|i: int| 0 <= i < l.len() && i != (a + 1) % (l.len() as int) ==> edge_set(d).contains(#[trigger] l[i]),
        next_by(tw2, l[a]) == next_by(tw, l[(a + 1) % (l.len() as int)]),
        forall|i: int| 0 <= i < l.len() && i != a && i != (a + 1) % (l.len() as int) ==> tw2(#[trigger] l[i]) == tw(l[i]),
    ensures
        closes_by_at(tw2, d, l[a], (l.len() - 1) as nat),
        orbit_by(tw2, d, l[a]) == shrunk(l, a),
{
    let n = l.len() as int;
    let u = l[a];
    let j = (a + 2) % n;
    lemma_wrap(a + 1, n);
    lemma_wrap(a + 2, n);
    lemma_wrap((a + 1) % n + 1, n);
    assert(next_by(tw, l[(a + 1) % n]) == l[((a + 1) % n + 1) % n]);
    assert(((a + 1) % n + 1) % n == j);
    assert forall|m: int| 0 <= m < n - 2 implies #[trigger] next_by(tw2, l[(j + m) % n]) == l[(j + m + 1) % n] by {
        lemma_wrap(j + m, n);
        lemma_wrap(a + 2 + m, n);
        let p = (j + m) % n;
        assert(p == (a + 2 + m) % n);
        assert(p != a && p != (a + 1) % n);
        assert(tw2(l[p]) == tw(l[p]));
        assert(next_by(tw, l[p]) == l[(p + 1) % n]);
        lemma_wrap(p + 1, n);
        lemma_wrap(j + m + 1, n);
        assert((p + 1) % n == (j + m + 1) % n);
    }
    assert forall|k: nat| 1 <= k <= n - 1 implies #[trigger] walk_by(tw2, u, k) == l[(a + 1 + k) % n] by {
        lemma_walk_shift(tw2, u, (k - 1) as nat);
        assert(next_by(tw2, u) == l[j]);
        lemma_follow(tw2, l, j, (n - 2) as nat, (k - 1) as nat);
        lemma_wrap(j + (k - 1), n);
        lemma_wrap(a + 1 + k, n);
        assert((j + (k - 1)) % n == (a + 1 + k) % n);
    }
    lemma_wrap(a + n, n);
    assert(walk_by(tw2, u, (n - 1) as nat) == l[(a + n) % n]);
    assert((a + n) % n == a);
    assert forall|k: nat| 0 < k < n - 1 implies #[trigger] walk_by(tw2, u, k) != u by {
        assert(walk_by(tw2, u, k) == l[(a + 1 + k) % n]);
        lemma_wrap(a + 1 + k, n);
        assert((a + 1 + k) % n != a);
    }
    assert forall|k: nat| k < n - 1 implies (#[trigger] walk_by(tw2, u, k)).offset < 3
        && d.contains(walk_by(tw2, u, k).vertex.id) && tw2(walk_by(tw2, u, k)).valid() by {
        let w = walk_by(tw2, u, k);
        if k == 0 {
            assert(a != (a + 1) % n);
            assert(edge_set(d).contains(l[a]));
        } else {
            assert(w == l[(a + 1 + k) % n]);
            lemma_wrap(a + 1 + k, n);
            assert((a + 1 + k) % n != (a + 1) % n);
            assert(edge_set(d).contains(l[(a + 1 + k) % n]));
        }
        assert(edge_set(d).contains(w));
        assert(edge_set(d).contains(tw2(w)));
    }
    lemma_return_bound(tw2, dc, u, (n - 1) as nat);
    assert(closes_by_at(tw2, d, u, (n - 1) as nat));
    lemma_closes_by_unique(tw2, d, u, (n - 1) as nat);
    assert(orbit_by(tw2, d, u) =~= shrunk(l, a));
}

/// A boundary gains the edge `s` before its edge `z` at position `c`: when
/// the new twins send `s` where the old ones sent `z`, send `z` to `s`, and
/// agree with the old ones on the rest of the boundary, the walk from `s`
/// under `tw2` runs along the whole old boundary after `z` and back to `s`.
pub proof fn lemma_grow(
    tw: spec_fn(EdgeKey) -> EdgeKey,
    tw2: spec_fn(EdgeKey) -> EdgeKey,
    d: Set<u64>,
    dc: Set<u64>,
    l: Seq<EdgeKey>,
    c: int,
    s: EdgeKey,
)
    requires
        1 <= l.len(),
        closes_by(tw2, dc, s),
        0 <= c < l.len(),
        l.no_duplicates(),
        !l.contains(s),
        follows(tw, l),
        pairs_up(tw2, d),
        edge_set(d).contains(s),
        forall|i: int| 0 <= i < l.len() ==> edge_set(d).contains(#[trigger] l[i]),
        next_by(tw2, s) == next_by(tw, l[c]),
        next_by(tw2, l[c]) == s,
        forall|i: int| 0 <= i < l.len() && i != c ==> tw2(#[trigger] l[i]) == tw(l[i]),
    ensures
        closes_by_at(tw2, d, s, (l.len() + 1) as nat),
        orbit_by(tw2, d, s) == grown(l, c, s),
{
    let n = l.len() as int;
    let j = (c + 1) % n;
    lemma_wrap(c + 1, n);
    assert(next_by(tw, l[c]) == l[j]);
    assert forall|m: int| 0 <= m < n - 1 implies #[trigger] next_by(tw2, l[(j + m) % n]) == l[(j + m + 1) % n] by {
        lemma_wrap(j + m, n);
        lemma_wrap(c + 1 + m, n);
        let p = (j + m) % n;
        assert(p == (c + 1 + m) % n);
        assert(p != c);
        assert(tw2(l[p]) == tw(l[p]));
        assert(next_by(tw, l[p]) == l[(p + 1) % n]);
        lemma_wrap(p + 1, n);
        lemma_wrap(j + m + 1, n);
        assert((p + 1) % n == (j + m + 1) % n);
    }
    assert forall|k: nat| 1 <= k <= n implies #[trigger] walk_by(tw2, s, k) == l[(c + k) % n] by {
        lemma_walk_shift(tw2, s, (k - 1) as nat);
        assert(next_by(tw2, s) == l[j]);
        lemma_follow(tw2, l, j, (n - 1) as nat, (k - 1) as nat);
        lemma_wrap(j + (k - 1), n);
        lemma_wrap(c + k, n);
        assert((j + (k - 1)) % n == (c + k) % n);
    }
    lemma_wrap(c + n, n);
    assert(walk_by(tw2, s, n as nat) == l[(c + n) % n]);
    assert((c + n) % n == c);
    lemma_walk_shift(tw2, s, n as nat);
    assert(walk_by(tw2, s, (n + 1) as nat) == next_by(tw2, walk_by(tw2, s, n as nat)));
    assert forall|k: nat| 0 < k < n + 1 implies #[trigger] walk_by(tw2, s, k) != s by {
        assert(walk_by(tw2, s, k) == l[(c + k) % n]);
        lemma_wrap(c + k, n);
        assert(l.contains(l[(c + k) % n]));
    }
    assert forall|k: nat| k < n + 1 implies (#[trigger] walk_by(tw2, s, k)).offset < 3
        && d.contains(walk_by(tw2, s, k).vertex.id) && tw2(walk_by(tw2, s, k)).valid() by {
        let w = walk_by(tw2, s, k);
        if k > 0 {
            assert(w == l[(c + k) % n]);
            lemma_wrap(c + k, n);
            assert(edge_set(d).contains(l[(c + k) % n]));
        }
        assert(edge_set(d).contains(w));
        assert(edge_set(d).contains(tw2(w)));
    }
    lemma_return_bound(tw2, dc, s, (n + 1) as nat);
    assert(closes_by_at(tw2, d, s, (n + 1) as nat));
    lemma_closes_by_unique(tw2, d, s, (n + 1) as nat);
    assert(orbit_by(tw2, d, s) =~= grown(l, c, s));
}

/// What `shrunk` holds: every edge of the list but the one after position
/// `a`, each once, starting with the edge at `a`.
pub proof fn lemma_shrunk_facts(l: Seq<EdgeKey>, a: int)
    requires
        2 <= l.len(),
        0 <= a < l.len(),
        l.no_duplicates(),
    ensures
        shrunk(l, a).no_duplicates(),
        shrunk(l, a)[0] == l[a],
        forall|f: EdgeKey| shrunk(l, a).contains(f) <==> (l.contains(f) && f != l[(a + 1) % (l.len() as int)]),
{
    let n = l.len() as int;
    let sh = shrunk(l, a);
    lemma_wrap(a + 1, n);
    assert forall|k: int| 1 <= k < n - 1 implies (#[trigger] sh[k]) == l[(a + 1 + k) % n]
        && (a + 1 + k) % n != a && (a + 1 + k) % n != (a + 1) % n by {
        lemma_wrap(a + 1 + k, n);
    }
    assert forall|i: int, j: int| 0 <= i < j < sh.len() implies sh[i] != sh[j] by {
        if i == 0 {
            assert(sh[j] == l[(a + 1 + j) % n]);
        } else {
            lemma_wrap(a + 1 + i, n);
            lemma_wrap(a + 1 + j, n);
            assert(sh[i] == l[(a + 1 + i) % n] && sh[j] == l[(a + 1 + j) % n]);
        }
    }
    assert forall|f: EdgeKey| sh.contains(f) <==> (l.contains(f) && f != l[(a + 1) % n]) by {
        if sh.contains(f) {
            let k = choose|k: int| 0 <= k < sh.len() && sh[k] == f;
            if k == 0 {
                assert(l[a] == f);
            } else {
                assert(l[(a + 1 + k) % n] == f);
            }
        }
        if l.contains(f) && f != l[(a + 1) % n] {
            let p = choose|p: int| 0 <= p < n && l[p] == f;
            if p == a {
                assert(sh[0] == f);
            } else {
                let k = if p > a { p - a - 1 } else { p + n - a - 1 };
                lemma_wrap(a + 1 + k, n);
                assert(1 <= k < n - 1);
                assert(sh[k] == f);
            }
        }
    }
}

/// What `grown` holds: the edge `s` and every edge of the list, each once.
pub proof fn lemma_grown_facts(l: Seq<EdgeKey>, c: int, s: EdgeKey)
    requires
        1 <= l.len(),
        0 <= c < l.len(),
        l.no_duplicates(),
        !l.contains(s),
    ensures
        grown(l, c, s).no_duplicates(),
        grown(l, c, s)[0] == s,
        forall|f: EdgeKey| grown(l, c, s).contains(f) <==> (f == s || l.contains(f)),
{
    let n = l.len() as int;
    let g = grown(l, c, s);
    assert forall|k: int| 1 <= k <= n implies (#[trigger] g[k]) == l[(c + k) % n] by {
        lemma_wrap(c + k, n);
    }
    assert forall|i: int, j: int| 0 <= i < j < g.len() implies g[i] != g[j] by {
        lemma_wrap(c + j, n);
        if i == 0 {
            assert(l.contains(g[j]));
        } else {
            lemma_wrap(c + i, n);
        }
    }
    assert forall|f: EdgeKey| g.contains(f) <==> (f == s || l.contains(f)) by {
        if g.contains(f) {
            let k = choose|k: int| 0 <= k < g.len() && g[k] == f;
            if k > 0 {
                lemma_wrap(c + k, n);
            }
        }
        if f == s {
            assert(g[0] == f);
        } else if l.contains(f) {
            let p = choose|p: int| 0 <= p < n && l[p] == f;
            let k = if p > c { p - c } else { p + n - c };
            lemma_wrap(c + k, n);
            assert(g[k] == f);
        }
    }
}

/// In a graph that keeps its invariants, each bubble's list follows the
/// twins, has no repeats, holds edges of the graph, and is not empty.
pub proof fn lemma_sane_list(vs: Map<u64, Vertex>, bs: Map<u64, Bubble>, b: u64)
    requires
        keys_valid(vs, bs),
        sane(vs, bs),
        bs.dom().contains(b),
    ensures
        follows(twins(vs), bs[b].edges@),
        bs[b].edges@.no_duplicates(),
        forall|i: int| 0 <= i < bs[b].edges@.len() ==> edge_set(vs.dom()).contains(#[trigger] bs[b].edges@[i]),
        1 <= bs[b].edges@.len(),
{
    let l = bs[b].edges@;
    assert forall|i: int| 0 <= i < l.len() implies #[trigger] next_by(twins(vs), l[i]) == l[(i + 1) % (l.len() as int)] by {
        assert(boundary_ok(vs, bs, b, i));
    }
    assert forall|i: int, j: int| 0 <= i < j < l.len() implies l[i] != l[j] by {
        assert(bs[b].edges@[i] != bs[b].edges@[j]);
    }
    assert forall|i: int| 0 <= i < l.len() implies edge_set(vs.dom()).contains(#[trigger] l[i]) by {
        assert(boundary_ok(vs, bs, b, i));
        assert(bs[b].edges@[i].valid());
    }
}

/// Along a closed walk under `tw2`, in a map whose twins are `tw2`, each
/// edge is an edge of the map, its twin's twin is itself, and the next edge
/// on its bubble is the next edge of the walk.
pub proof fn lemma_orbit_boundary(vs2: Map<u64, Vertex>, tw2: spec_fn(EdgeKey) -> EdgeKey, s: EdgeKey, m: nat)
    requires
        twins_are(vs2, tw2),
        pairs_up(tw2, vs2.dom()),
        closes_by_at(tw2, vs2.dom(), s, m),
    ensures
        orbit_by(tw2, vs2.dom(), s).len() == m,
        forall|i: int| 0 <= i < m ==> {
            &&& edge_set(vs2.dom()).contains(#[trigger] orbit_by(tw2, vs2.dom(), s)[i])
            &&& vs2.dom().contains(twin_of(vs2, orbit_by(tw2, vs2.dom(), s)[i]).vertex.id)
            &&& twin_of(vs2, twin_of(vs2, orbit_by(tw2, vs2.dom(), s)[i])) == orbit_by(tw2, vs2.dom(), s)[i]
            &&& next_edge(vs2, orbit_by(tw2, vs2.dom(), s)[i]) == orbit_by(tw2, vs2.dom(), s)[(i + 1) % (m as int)]
        },
{
    let d = vs2.dom();
    lemma_closes_by_unique(tw2, d, s, m);
    let o = orbit_by(tw2, d, s);
    assert forall|i: int| 0 <= i < m implies {
        &&& edge_set(d).contains(#[trigger] orbit_by(tw2, d, s)[i])
        &&& vs2.dom().contains(twin_of(vs2, orbit_by(tw2, d, s)[i]).vertex.id)
        &&& twin_of(vs2, twin_of(vs2, orbit_by(tw2, d, s)[i])) == orbit_by(tw2, d, s)[i]
        &&& next_edge(vs2, orbit_by(tw2, d, s)[i]) == orbit_by(tw2, d, s)[(i + 1) % (m as int)]
    } by {
        let f = o[i];
        assert(f == walk_by(tw2, s, i as nat));
        assert(has_edge(vs2, f));
        assert(edge_set(d).contains(f));
        assert(edge_set(d).contains(tw2(f)) && tw2(tw2(f)) == f);
        assert(has_edge(vs2, tw2(f)));
        assert(next_edge(vs2, f) == walk_by(tw2, s, (i + 1) as nat));
        lemma_wrap(i + 1, m as int);
        if i + 1 == m {
            assert(walk_by(tw2, s, m) == s);
        }
    }
}

/// The four bubbles around the wall of `e` differ: those of the edge and
/// of its twin, and those beyond the edges before them.
pub open spec fn four_distinct(vs: Map<u64, Vertex>, e: EdgeKey) -> bool {
    let t = twin_of(vs, e);
    let top = bubble_of(vs, e);
    let bottom = bubble_of(vs, t);
    let right = bubble_of(vs, twin_of(vs, e.spec_prev_on_vertex()));
    let left = bubble_of(vs, twin_of(vs, t.spec_prev_on_vertex()));
    &&& top != bottom && top != left && top != right
    &&& bottom != left && bottom != right
    &&& left != right
}

/// In a graph that keeps its invariants, an edge of bubble `b`'s list
/// claims `b`, and every edge is in the list of the bubble it claims.
pub proof fn lemma_listed_in_own(vs: Map<u64, Vertex>, bs: Map<u64, Bubble>, f: EdgeKey)
    requires
        sane(vs, bs),
        has_edge(vs, f),
    ensures
        bs.dom().contains(bubble_of(vs, f).id),
        bs[bubble_of(vs, f).id].edges@.contains(f),
{
    let (b, i) = choose|b: u64, i: int| bs.dom().contains(b) && 0 <= i < bs[b].edges@.len() && #[trigger] bs[b].edges@[i] == f;
    assert(boundary_ok(vs, bs, b, i));
}

/// In a graph that keeps its invariants, the edges of bubble `b`'s list
/// claim `b`.
pub proof fn lemma_list_claims(vs: Map<u64, Vertex>, bs: Map<u64, Bubble>, b: u64, f: EdgeKey)
    requires
        sane(vs, bs),
        bs.dom().contains(b),
        bs[b].edges@.contains(f),
    ensures
        bubble_of(vs, f).id == b,
{
    let i = choose|i: int| 0 <= i < bs[b].edges@.len() && bs[b].edges@[i] == f;
    assert(boundary_ok(vs, bs, b, i));
}

/// A list that follows the twins, has no repeats, holds edges of the
/// vertices `d`, and is not empty.
pub open spec fn list_good(tw: spec_fn(EdgeKey) -> EdgeKey, d: Set<u64>, l: Seq<EdgeKey>) -> bool {
    &&& follows(tw, l)
    &&& l.no_duplicates()
    &&& forall|i: int| 0 <= i < l.len() ==> edge_set(d).contains(#[trigger] l[i])
    &&& 1 <= l.len()
}

/// What a graph that keeps its invariants offers a proof about its
/// boundaries: the twins pair up the edges, every list is good, the edges
/// of a list claim its bubble, and every edge is in the list of the bubble
/// it claims.
#[verifier::opaque]
pub open spec fn lists_follow(vs: Map<u64, Vertex>, bs: Map<u64, Bubble>) -> bool {
    &&& pairs_up(twins(vs), vs.dom())
    &&& forall|b: u64| #[trigger] bs.dom().contains(b) ==> list_good(twins(vs), vs.dom(), bs[b].edges@)
    &&& forall|b: u64, f: EdgeKey| bs.dom().contains(b) && #[trigger] bs[b].edges@.contains(f) ==> bubble_of(vs, f).id == b
    &&& forall|f: EdgeKey| #[trigger] has_edge(vs, f) ==> bs.dom().contains(bubble_of(vs, f).id)
        && bs[bubble_of(vs, f).id].edges@.contains(f)
}

/// A graph that keeps its invariants offers it.
pub proof fn lemma_sane_lists_follow(vs: Map<u64, Vertex>, bs: Map<u64, Bubble>)
    requires
        keys_valid(vs, bs),
        sane(vs, bs),
    ensures
        lists_follow(vs, bs),
{
    reveal(lists_follow);
    lemma_sane_pairs(vs, bs);
    assert forall|b: u64| #[trigger] bs.dom().contains(b) implies list_good(twins(vs), vs.dom(), bs[b].edges@) by {
        lemma_sane_list(vs, bs, b);
    }
    assert forall|b: u64, f: EdgeKey| bs.dom().contains(b) && #[trigger] bs[b].edges@.contains(f) implies bubble_of(vs, f).id == b by {
        lemma_list_claims(vs, bs, b, f);
    }
    assert forall|f: EdgeKey| #[trigger] has_edge(vs, f) implies bs.dom().contains(bubble_of(vs, f).id)
        && bs[bubble_of(vs, f).id].edges@.contains(f) by {
        lemma_listed_in_own(vs, bs, f);
    }
}

/// The boundaries after a slide of the wall of `e`, when the graph offers
/// the facts above and the six edges and four bubbles around the wall
/// differ: the walk from `e` runs along its old bubble without the edge
/// after `e`; the walk from its twin likewise; the walk from the edge
/// before `e` runs along the bubble beyond the twin's previous edge with
/// that edge added; and the walk from the twin's previous edge along the
/// bubble beyond `e`'s previous edge likewise.
#[verifier::rlimit(60)]
#[verifier::spinoff_prover]
pub proof fn lemma_slide_orbits(vs: Map<u64, Vertex>, bs: Map<u64, Bubble>, e: EdgeKey)
    requires
        lists_follow(vs, bs),
        has_edge(vs, e),
        slide_six_distinct(vs, e),
        four_distinct(vs, e),
        slide_closes(vs, e),
    ensures
        ({
            let d = vs.dom();
            let tw2 = slide_twins(vs, e);
            let t = twin_of(vs, e);
            let ep = e.spec_prev_on_vertex();
            let tp = t.spec_prev_on_vertex();
            let lt = bs[bubble_of(vs, e).id].edges@;
            let lb = bs[bubble_of(vs, t).id].edges@;
            let ll = bs[bubble_of(vs, twin_of(vs, tp)).id].edges@;
            let lr = bs[bubble_of(vs, twin_of(vs, ep)).id].edges@;
            &&& closes_by_at(tw2, d, e, (lt.len() - 1) as nat)
            &&& closes_by_at(tw2, d, t, (lb.len() - 1) as nat)
            &&& closes_by_at(tw2, d, ep, (ll.len() + 1) as nat)
            &&& closes_by_at(tw2, d, tp, (lr.len() + 1) as nat)
            &&& orbit_by(tw2, d, e).no_duplicates()
            &&& orbit_by(tw2, d, t).no_duplicates()
            &&& orbit_by(tw2, d, ep).no_duplicates()
            &&& orbit_by(tw2, d, tp).no_duplicates()
            &&& forall|f: EdgeKey| #![trigger orbit_by(tw2, d, e).contains(f)] #![trigger lt.contains(f)]
                orbit_by(tw2, d, e).contains(f) <==> (lt.contains(f) && f != tp)
            &&& forall|f: EdgeKey| #![trigger orbit_by(tw2, d, t).contains(f)] #![trigger lb.contains(f)]
                orbit_by(tw2, d, t).contains(f) <==> (lb.contains(f) && f != ep)
            &&& forall|f: EdgeKey| #![trigger orbit_by(tw2, d, ep).contains(f)] #![trigger ll.contains(f)]
                orbit_by(tw2, d, ep).contains(f) <==> (f == ep || ll.contains(f))
            &&& forall|f: EdgeKey| #![trigger orbit_by(tw2, d, tp).contains(f)] #![trigger lr.contains(f)]
                orbit_by(tw2, d, tp).contains(f) <==> (f == tp || lr.contains(f))
            &&& bubble_of(vs, tp) == bubble_of(vs, e)
            &&& bubble_of(vs, ep) == bubble_of(vs, t)
        }),
{
    reveal(lists_follow);
    let d = vs.dom();
    let tw = twins(vs);
    let t = twin_of(vs, e);
    let ep = e.spec_prev_on_vertex();
    let tp = t.spec_prev_on_vertex();
    let x = twin_of(vs, ep);
    let y = twin_of(vs, tp);
    assert(has_edge(vs, e) && edge_set(d).contains(e));
    assert(edge_set(d).contains(t) && has_edge(vs, t));
    assert(has_edge(vs, ep) && edge_set(d).contains(ep));
    assert(has_edge(vs, tp) && edge_set(d).contains(tp));
    assert(edge_set(d).contains(x) && has_edge(vs, x));
    assert(edge_set(d).contains(y) && has_edge(vs, y));
    assert(tw(x) == ep && tw(y) == tp && tw(t) == e);
    lemma_slide_pairs(vs, e);
    let tw2 = slide_twins(vs, e);
    assert(tw2 == linked(linked(linked(tw, e, y), t, x), tp, ep)) by {
        reveal(slide_twins);
    }
    let top = bubble_of(vs, e).id;
    let bot = bubble_of(vs, t).id;
    let lft = bubble_of(vs, y).id;
    let rgt = bubble_of(vs, x).id;
    let lt = bs[top].edges@;
    let lb = bs[bot].edges@;
    let ll = bs[lft].edges@;
    let lr = bs[rgt].edges@;
    assert(bs.dom().contains(top) && bs.dom().contains(bot) && bs.dom().contains(lft) && bs.dom().contains(rgt));
    assert(list_good(tw, d, lt) && list_good(tw, d, lb) && list_good(tw, d, ll) && list_good(tw, d, lr));
    assert(lt.contains(e) && lb.contains(t) && ll.contains(y) && lr.contains(x));
    let a = choose|i: int| 0 <= i < lt.len() && lt[i] == e;
    let b = choose|i: int| 0 <= i < lb.len() && lb[i] == t;
    let c = choose|i: int| 0 <= i < ll.len() && ll[i] == y;
    let c2 = choose|i: int| 0 <= i < lr.len() && lr[i] == x;
    assert(next_by(tw, lt[a]) == lt[(a + 1) % (lt.len() as int)]);
    assert(next_by(tw, lb[b]) == lb[(b + 1) % (lb.len() as int)]);
    assert(lt[(a + 1) % (lt.len() as int)] == tp);
    assert(lb[(b + 1) % (lb.len() as int)] == ep);
    lemma_wrap(a + 1, lt.len() as int);
    lemma_wrap(b + 1, lb.len() as int);
    assert(lt.contains(tp));
    assert(lb.contains(ep));
    assert(bubble_of(vs, tp).id == top && bubble_of(vs, ep).id == bot);
    assert(lt.len() >= 2) by {
        if lt.len() == 1 {
            assert(tp == e);
        }
    }
    assert(lb.len() >= 2) by {
        if lb.len() == 1 {
            assert(ep == t);
        }
    }
    assert forall|f: EdgeKey| f != e && f != t && f != ep && f != tp && f != x && f != y implies #[trigger] tw2(f) == tw(f) by {}
    assert forall|i: int| 0 <= i < lt.len() && i != a && i != (a + 1) % (lt.len() as int) implies tw2(#[trigger] lt[i]) == tw(lt[i]) by {
        assert(lt.contains(lt[i]));
        assert(bubble_of(vs, lt[i]).id == top);
    }
    assert forall|i: int| 0 <= i < lb.len() && i != b && i != (b + 1) % (lb.len() as int) implies tw2(#[trigger] lb[i]) == tw(lb[i]) by {
        assert(lb.contains(lb[i]));
        assert(bubble_of(vs, lb[i]).id == bot);
    }
    assert forall|i: int| 0 <= i < ll.len() && i != c implies tw2(#[trigger] ll[i]) == tw(ll[i]) by {
        assert(ll.contains(ll[i]));
        assert(bubble_of(vs, ll[i]).id == lft);
    }
    assert forall|i: int| 0 <= i < lr.len() && i != c2 implies tw2(#[trigger] lr[i]) == tw(lr[i]) by {
        assert(lr.contains(lr[i]));
        assert(bubble_of(vs, lr[i]).id == rgt);
    }
    assert(!ll.contains(ep)) by {
        if ll.contains(ep) {
            assert(bubble_of(vs, ep).id == lft);
        }
    }
    assert(!lr.contains(tp)) by {
        if lr.contains(tp) {
            assert(bubble_of(vs, tp).id == rgt);
        }
    }
    assert(next_by(tw2, e) == next_by(tw, tp));
    assert(next_by(tw2, t) == next_by(tw, ep));
    assert(next_by(tw2, ep) == next_by(tw, y) && next_by(tw2, y) == ep);
    assert(next_by(tw2, tp) == next_by(tw, x) && next_by(tw2, x) == tp);
    lemma_four_orbits(tw, tw2, d, lt, lb, ll, lr, a, b, c, c2, ep, tp);
}

/// The four boundaries, from plain facts about the four lists.
proof fn lemma_four_orbits(
    tw: spec_fn(EdgeKey) -> EdgeKey,
    tw2: spec_fn(EdgeKey) -> EdgeKey,
    d: Set<u64>,
    lt: Seq<EdgeKey>,
    lb: Seq<EdgeKey>,
    ll: Seq<EdgeKey>,
    lr: Seq<EdgeKey>,
    a: int,
    b: int,
    c: int,
    c2: int,
    ep: EdgeKey,
    tp: EdgeKey,
)
    requires
        pairs_up(tw2, d),
        closes_by(tw2, d, lt[a]),
        closes_by(tw2, d, lb[b]),
        closes_by(tw2, d, ep),
        closes_by(tw2, d, tp),
        list_good(tw, d, lt),
        list_good(tw, d, lb),
        list_good(tw, d, ll),
        list_good(tw, d, lr),
        lt.len() >= 2,
        lb.len() >= 2,
        0 <= a < lt.len(),
        0 <= b < lb.len(),
        0 <= c < ll.len(),
        0 <= c2 < lr.len(),
        lt[(a + 1) % (lt.len() as int)] == tp,
        lb[(b + 1) % (lb.len() as int)] == ep,
        !ll.contains(ep),
        !lr.contains(tp),
        edge_set(d).contains(ep),
        edge_set(d).contains(tp),
        next_by(tw2, lt[a]) == next_by(tw, tp),
        next_by(tw2, lb[b]) == next_by(tw, ep),
        next_by(tw2, ep) == next_by(tw, ll[c]),
        next_by(tw2, ll[c]) == ep,
        next_by(tw2, tp) == next_by(tw, lr[c2]),
        next_by(tw2, lr[c2]) == tp,
        forall|i: int| 0 <= i < lt.len() && i != a && i != (a + 1) % (lt.len() as int) ==> tw2(#[trigger] lt[i]) == tw(lt[i]),
        forall|i: int| 0 <= i < lb.len() && i != b && i != (b + 1) % (lb.len() as int) ==> tw2(#[trigger] lb[i]) == tw(lb[i]),
        forall|i: int| 0 <= i < ll.len() && i != c ==> tw2(#[trigger] ll[i]) == tw(ll[i]),
        forall|i: int| 0 <= i < lr.len() && i != c2 ==> tw2(#[trigger] lr[i]) == tw(lr[i]),
    ensures
        closes_by_at(tw2, d, lt[a], (lt.len() - 1) as nat),
        closes_by_at(tw2, d, lb[b], (lb.len() - 1) as nat),
        closes_by_at(tw2, d, ep, (ll.len() + 1) as nat),
        closes_by_at(tw2, d, tp, (lr.len() + 1) as nat),
        orbit_by(tw2, d, lt[a]).no_duplicates(),
        orbit_by(tw2, d, lb[b]).no_duplicates(),
        orbit_by(tw2, d, ep).no_duplicates(),
        orbit_by(tw2, d, tp).no_duplicates(),
        forall|f: EdgeKey| #![trigger orbit_by(tw2, d, lt[a]).contains(f)] #![trigger lt.contains(f)]
            orbit_by(tw2, d, lt[a]).contains(f) <==> (lt.contains(f) && f != tp),
        forall|f: EdgeKey| #![trigger orbit_by(tw2, d, lb[b]).contains(f)] #![trigger lb.contains(f)]
            orbit_by(tw2, d, lb[b]).contains(f) <==> (lb.contains(f) && f != ep),
        forall|f: EdgeKey| #![trigger orbit_by(tw2, d, ep).contains(f)] #![trigger ll.contains(f)]
            orbit_by(tw2, d, ep).contains(f) <==> (f == ep || ll.contains(f)),
        forall|f: EdgeKey| #![trigger orbit_by(tw2, d, tp).contains(f)] #![trigger lr.contains(f)]
            orbit_by(tw2, d, tp).contains(f) <==> (f == tp || lr.contains(f)),
{
    lemma_shrink(tw, tw2, d, d, lt, a);
    lemma_shrink(tw, tw2, d, d, lb, b);
    lemma_grow(tw, tw2, d, d, ll, c, ep);
    lemma_grow(tw, tw2, d, d, lr, c2, tp);
    lemma_shrunk_facts(lt, a);
    lemma_shrunk_facts(lb, b);
    lemma_grown_facts(ll, c, ep);
    lemma_grown_facts(lr, c2, tp);
}

/// After a slide, the edge after `e` claims the bubble beyond `e`'s
/// previous edge, the edge before `e` claims the bubble beyond the twin's
/// previous edge, and every other edge keeps its bubble.
proof fn lemma_slide_labels(vs: Map<u64, Vertex>, bs: Map<u64, Bubble>, e: EdgeKey, vs2: Map<u64, Vertex>, bs2: Map<u64, Bubble>)
    requires
        lists_follow(vs, bs),
        has_edge(vs, e),
        slide_six_distinct(vs, e),
        four_distinct(vs, e),
        slide_closes(vs, e),
        relinked_rebubbled(vs, bs, vs2, bs2, slide_twins(vs, e), slide_chain(vs, e)),
    ensures
        forall|f: EdgeKey| #[trigger] has_edge(vs, f) ==> bubble_of(vs2, f) == (
            if f == twin_of(vs, e).spec_prev_on_vertex() {
                bubble_of(vs, twin_of(vs, e.spec_prev_on_vertex()))
            } else if f == e.spec_prev_on_vertex() {
                bubble_of(vs, twin_of(vs, twin_of(vs, e).spec_prev_on_vertex()))
            } else {
                bubble_of(vs, f)
            }),
        forall|b: u64| #[trigger] bs.dom().contains(b) ==> bs2[b].edges@ == (
            if b == bubble_of(vs, twin_of(vs, e.spec_prev_on_vertex())).id {
                orbit_by(slide_twins(vs, e), vs.dom(), twin_of(vs, e).spec_prev_on_vertex())
            } else if b == bubble_of(vs, twin_of(vs, twin_of(vs, e).spec_prev_on_vertex())).id {
                orbit_by(slide_twins(vs, e), vs.dom(), e.spec_prev_on_vertex())
            } else if b == bubble_of(vs, twin_of(vs, e)).id {
                orbit_by(slide_twins(vs, e), vs.dom(), twin_of(vs, e))
            } else if b == bubble_of(vs, e).id {
                orbit_by(slide_twins(vs, e), vs.dom(), e)
            } else {
                bs[b].edges@
            }),
{
    lemma_slide_orbits(vs, bs, e);
    let d = vs.dom();
    let tw2 = slide_twins(vs, e);
    let t = twin_of(vs, e);
    let ep = e.spec_prev_on_vertex();
    let tp = t.spec_prev_on_vertex();
    let x = twin_of(vs, ep);
    let y = twin_of(vs, tp);
    let top = bubble_of(vs, e);
    let bot = bubble_of(vs, t);
    let lft = bubble_of(vs, y);
    let rgt = bubble_of(vs, x);
    let o1 = orbit_by(tw2, d, e);
    let o2 = orbit_by(tw2, d, t);
    let o3 = orbit_by(tw2, d, ep);
    let o4 = orbit_by(tw2, d, tp);
    let chain = slide_chain(vs, e);
    assert(chain =~= seq![(top, o1), (bot, o2), (lft, o3), (rgt, o4)]);
    reveal_with_fuel(chain_label, 5);
    reveal_with_fuel(chain_list, 5);
    assert(chain.drop_last() =~= seq![(top, o1), (bot, o2), (lft, o3)]);
    assert(chain.drop_last().drop_last() =~= seq![(top, o1), (bot, o2)]);
    assert(chain.drop_last().drop_last().drop_last() =~= seq![(top, o1)]);
    assert(chain.drop_last().drop_last().drop_last().drop_last() =~= Seq::<(BubbleKey, Seq<EdgeKey>)>::empty());
    reveal(lists_follow);
    let lt = bs[top.id].edges@;
    let lb = bs[bot.id].edges@;
    let ll = bs[lft.id].edges@;
    let lr = bs[rgt.id].edges@;
    assert(has_edge(vs, t) && has_edge(vs, ep) && has_edge(vs, tp));
    assert(edge_set(d).contains(ep) && edge_set(d).contains(tp));
    assert(edge_set(d).contains(twins(vs)(ep)) && edge_set(d).contains(twins(vs)(tp)));
    assert(has_edge(vs, x) && has_edge(vs, y));
    assert(bs.dom().contains(rgt.id) && bs.dom().contains(lft.id));
    assert(bs[bubble_of(vs, tp).id].edges@.contains(tp));
    assert(bs[bubble_of(vs, ep).id].edges@.contains(ep));
    assert forall|f: EdgeKey| #[trigger] has_edge(vs, f) implies bubble_of(vs2, f) == (
        if f == tp { rgt } else if f == ep { lft } else { bubble_of(vs, f) }) by {
        let bf = bubble_of(vs, f);
        assert(bs.dom().contains(bf.id) && bs[bf.id].edges@.contains(f));
        assert(bubble_of(vs2, f) == chain_label(chain, f, bf));
        if bf == top {
            assert(lt.contains(f));
        } else if bf == bot {
            assert(lb.contains(f));
        } else if bf == lft {
            assert(ll.contains(f));
        } else if bf == rgt {
            assert(lr.contains(f));
        }
        if lr.contains(f) {
            assert(bubble_of(vs, f).id == rgt.id);
        }
        if ll.contains(f) {
            assert(bubble_of(vs, f).id == lft.id);
        }
        if lb.contains(f) {
            assert(bubble_of(vs, f).id == bot.id);
        }
        if lt.contains(f) {
            assert(bubble_of(vs, f).id == top.id);
        }
        assert(bs[bubble_of(vs, tp).id].edges@.contains(tp));
    }
    assert forall|b: u64| #[trigger] bs.dom().contains(b) implies bs2[b].edges@ == (
        if b == rgt.id { o4 } else if b == lft.id { o3 } else if b == bot.id { o2 } else if b == top.id { o1 } else { bs[b].edges@ }) by {
        assert(bs2[b].edges@ == chain_list(chain, b, bs[b].edges@));
    }
}

/// A graph that keeps its invariants, with valid keys, holds together.
pub proof fn lemma_sane_graph_ok(vs: Map<u64, Vertex>, bs: Map<u64, Bubble>)
    requires
        keys_valid(vs, bs),
        sane(vs, bs),
    ensures
        graph_ok(vs, bs),
{
    lemma_sane_pairs(vs, bs);
    assert forall|e: EdgeKey| #![trigger twin_of(vs, e)] has_edge(vs, e) implies has_edge(vs, twin_of(vs, e)) by {
        assert(edge_set(vs.dom()).contains(e));
        assert(edge_set(vs.dom()).contains(twins(vs)(e)));
    }
    assert forall|b: u64, i: int| bs.dom().contains(b) && 0 <= i < bs[b].edges@.len() implies
        has_edge(vs, #[trigger] bs[b].edges@[i]) by {
        assert(boundary_ok(vs, bs, b, i));
        assert(bs[b].edges@[i].valid());
    }
}

/// The position `(b, i)` of a list of the graph after a slide is in order,
/// for a bubble `b` that the slide leaves alone.
proof fn lemma_untouched_boundary(
    vs: Map<u64, Vertex>,
    bs: Map<u64, Bubble>,
    e: EdgeKey,
    vs2: Map<u64, Vertex>,
    bs2: Map<u64, Bubble>,
    b: u64,
    i: int,
)
    requires
        sane(vs, bs),
        lists_follow(vs, bs),
        has_edge(vs, e),
        slide_six_distinct(vs, e),
        four_distinct(vs, e),
        slide_closes(vs, e),
        relinked_rebubbled(vs, bs, vs2, bs2, slide_twins(vs, e), slide_chain(vs, e)),
        bs.dom().contains(b),
        b != bubble_of(vs, e).id,
        b != bubble_of(vs, twin_of(vs, e)).id,
        b != bubble_of(vs, twin_of(vs, e.spec_prev_on_vertex())).id,
        b != bubble_of(vs, twin_of(vs, twin_of(vs, e).spec_prev_on_vertex())).id,
        bs2[b].edges@ == bs[b].edges@,
        0 <= i < bs[b].edges@.len(),
        bubble_of(vs2, bs[b].edges@[i]) == bubble_of(vs, bs[b].edges@[i]),
    ensures
        boundary_ok(vs2, bs2, b, i),
{
    reveal(lists_follow);
    let d = vs.dom();
    let tw = twins(vs);
    let tw2 = slide_twins(vs, e);
    let t = twin_of(vs, e);
    let ep = e.spec_prev_on_vertex();
    let tp = t.spec_prev_on_vertex();
    let x = twin_of(vs, ep);
    let y = twin_of(vs, tp);
    let l = bs[b].edges@;
    let f = l[i];
    assert(boundary_ok(vs, bs, b, i));
    assert(l.contains(f));
    assert(bubble_of(vs, f).id == b);
    assert(has_edge(vs, e) && has_edge(vs, t) && has_edge(vs, ep) && has_edge(vs, tp));
    assert(edge_set(d).contains(ep) && edge_set(d).contains(tp) && edge_set(d).contains(e));
    assert(edge_set(d).contains(tw(ep)) && edge_set(d).contains(tw(tp)) && edge_set(d).contains(tw(e)));
    assert(has_edge(vs, x) && has_edge(vs, y));
    assert(bs[bubble_of(vs, tp).id].edges@.contains(tp) && bs[bubble_of(vs, ep).id].edges@.contains(ep));
    assert(tw2 == linked(linked(linked(tw, e, y), t, x), tp, ep)) by {
        reveal(slide_twins);
    }
    assert(f != e && f != t && f != x && f != y);
    lemma_slide_orbits(vs, bs, e);
    assert(f != ep && f != tp);
    assert(has_edge(vs, f) && edge_set(d).contains(f));
    assert(edge_set(d).contains(tw(f)) && tw(tw(f)) == f);
    let g = tw(f);
    assert(g != e && g != t && g != x && g != y && g != ep && g != tp);
    assert(vs2.dom() == vs.dom() && twins_are(vs2, tw2));
    assert(has_edge(vs2, f));
    assert(twin_of(vs2, f) == tw2(f));
    assert(tw2(f) == g);
    assert(has_edge(vs2, g));
    assert(twin_of(vs2, g) == tw2(g));
    assert(tw2(g) == f);
}

/// The setting of a slide proof: a graph that offers the facts about its
/// lists and keeps its invariants, a wall with six distinct edges and four
/// distinct bubbles around it, and the graph after its slide.
pub open spec fn slide_setting(vs: Map<u64, Vertex>, bs: Map<u64, Bubble>, e: EdgeKey, vs2: Map<u64, Vertex>, bs2: Map<u64, Bubble>) -> bool {
    &&& sane(vs, bs)
    &&& lists_follow(vs, bs)
    &&& has_edge(vs, e)
    &&& slide_six_distinct(vs, e)
    &&& four_distinct(vs, e)
    &&& slide_closes(vs, e)
    &&& relinked_rebubbled(vs, bs, vs2, bs2, slide_twins(vs, e), slide_chain(vs, e))
}

/// A list that is the closed walk from `s` under the twins of the map, and
/// whose edges all claim its bubble `b`, is in order at every position.
pub proof fn lemma_orbit_list_ok(
    vs2: Map<u64, Vertex>,
    bs2: Map<u64, Bubble>,
    tw2: spec_fn(EdgeKey) -> EdgeKey,
    s: EdgeKey,
    m: nat,
    b: u64,
)
    requires
        twins_are(vs2, tw2),
        pairs_up(tw2, vs2.dom()),
        closes_by_at(tw2, vs2.dom(), s, m),
        bs2.dom().contains(b),
        bs2[b].edges@ == orbit_by(tw2, vs2.dom(), s),
        forall|f: EdgeKey| #[trigger] bs2[b].edges@.contains(f) ==> bubble_of(vs2, f).id == b,
    ensures
        forall|i: int| 0 <= i < bs2[b].edges@.len() ==> #[trigger] boundary_ok(vs2, bs2, b, i),
{
    lemma_orbit_boundary(vs2, tw2, s, m);
    let l = bs2[b].edges@;
    assert forall|i: int| 0 <= i < l.len() implies #[trigger] boundary_ok(vs2, bs2, b, i) by {
        assert(l.contains(l[i]));
        assert(edge_set(vs2.dom()).contains(orbit_by(tw2, vs2.dom(), s)[i]));
    }
}

/// After the slide, an edge of the list of bubble `b` is an edge of the
/// graph before, and claims `b`.
#[verifier::rlimit(40)]
#[verifier::spinoff_prover]
proof fn lemma_new_claim_one(
    vs: Map<u64, Vertex>,
    bs: Map<u64, Bubble>,
    e: EdgeKey,
    vs2: Map<u64, Vertex>,
    bs2: Map<u64, Bubble>,
    b: u64,
    f: EdgeKey,
)
    requires
        slide_setting(vs, bs, e, vs2, bs2),
        bs2.dom().contains(b),
        bs2[b].edges@.contains(f),
    ensures
        has_edge(vs, f),
        bubble_of(vs2, f).id == b,
{
    let d = vs.dom();
    let t = twin_of(vs, e);
    let ep = e.spec_prev_on_vertex();
    let tp = t.spec_prev_on_vertex();
    let x = twin_of(vs, ep);
    let y = twin_of(vs, tp);
    let top = bubble_of(vs, e).id;
    let bot = bubble_of(vs, t).id;
    let lft = bubble_of(vs, y).id;
    let rgt = bubble_of(vs, x).id;
    lemma_slide_orbits(vs, bs, e);
    lemma_slide_labels(vs, bs, e, vs2, bs2);
    reveal(lists_follow);
    let lt = bs[top].edges@;
    let lb = bs[bot].edges@;
    let ll = bs[lft].edges@;
    let lr = bs[rgt].edges@;
    assert(has_edge(vs, ep) && has_edge(vs, tp) && has_edge(vs, t));
    assert(has_edge(vs, x) && has_edge(vs, y)) by {
        assert(edge_set(d).contains(ep) && edge_set(d).contains(tp));
        assert(edge_set(d).contains(twins(vs)(ep)) && edge_set(d).contains(twins(vs)(tp)));
    }
    assert(bs.dom().contains(b));
    assert(bs.dom().contains(top) && bs.dom().contains(bot) && bs.dom().contains(lft) && bs.dom().contains(rgt));
    assert(lt.contains(tp) && lb.contains(ep));
    if b == rgt {
        assert(orbit_by(slide_twins(vs, e), d, tp).contains(f));
        if f != tp {
            assert(lr.contains(f));
            assert(bubble_of(vs, f).id == rgt);
            let i = choose|i: int| 0 <= i < lr.len() && lr[i] == f;
            assert(edge_set(d).contains(lr[i]));
            assert(f != ep);
        }
        assert(has_edge(vs, f));
        assert(bubble_of(vs2, f).id == b);
    } else if b == lft {
        assert(orbit_by(slide_twins(vs, e), d, ep).contains(f));
        if f != ep {
            assert(ll.contains(f));
            assert(bubble_of(vs, f).id == lft);
            let i = choose|i: int| 0 <= i < ll.len() && ll[i] == f;
            assert(edge_set(d).contains(ll[i]));
            assert(f != tp);
        }
        assert(has_edge(vs, f));
        assert(bubble_of(vs2, f).id == b);
    } else if b == bot {
        assert(orbit_by(slide_twins(vs, e), d, t).contains(f));
        assert(lb.contains(f) && f != ep);
        assert(bubble_of(vs, f).id == bot);
        let i = choose|i: int| 0 <= i < lb.len() && lb[i] == f;
        assert(edge_set(d).contains(lb[i]));
        assert(f != tp);
        assert(has_edge(vs, f));
        assert(bubble_of(vs2, f).id == b);
    } else if b == top {
        assert(orbit_by(slide_twins(vs, e), d, e).contains(f));
        assert(lt.contains(f) && f != tp);
        assert(bubble_of(vs, f).id == top);
        let i = choose|i: int| 0 <= i < lt.len() && lt[i] == f;
        assert(edge_set(d).contains(lt[i]));
        assert(f != ep);
        assert(has_edge(vs, f));
        assert(bubble_of(vs2, f).id == b);
    } else {
        let l = bs[b].edges@;
        assert(l.contains(f));
        assert(bubble_of(vs, f).id == b);
        let i = choose|i: int| 0 <= i < l.len() && l[i] == f;
        assert(list_good(twins(vs), d, l));
        assert(edge_set(d).contains(l[i]));
        assert(f != tp && f != ep);
        assert(has_edge(vs, f));
        assert(bubble_of(vs2, f).id == b);
    }
}

/// After the slide, each edge of each list claims the list's bubble.
proof fn lemma_new_claims(vs: Map<u64, Vertex>, bs: Map<u64, Bubble>, e: EdgeKey, vs2: Map<u64, Vertex>, bs2: Map<u64, Bubble>)
    requires
        slide_setting(vs, bs, e, vs2, bs2),
    ensures
        forall|b: u64, f: EdgeKey| bs2.dom().contains(b) && #[trigger] bs2[b].edges@.contains(f) ==>
            has_edge(vs, f) && bubble_of(vs2, f).id == b,
{
    assert forall|b: u64, f: EdgeKey| bs2.dom().contains(b) && #[trigger] bs2[b].edges@.contains(f) implies
        has_edge(vs, f) && bubble_of(vs2, f).id == b by {
        lemma_new_claim_one(vs, bs, e, vs2, bs2, b, f);
    }
}

/// After the slide, every position of the list of bubble `b` is in order.
#[verifier::rlimit(40)]
#[verifier::spinoff_prover]
proof fn lemma_new_boundary_one(vs: Map<u64, Vertex>, bs: Map<u64, Bubble>, e: EdgeKey, vs2: Map<u64, Vertex>, bs2: Map<u64, Bubble>, b: u64)
    requires
        slide_setting(vs, bs, e, vs2, bs2),
        bs2.dom().contains(b),
        forall|b2: u64, f: EdgeKey| bs2.dom().contains(b2) && #[trigger] bs2[b2].edges@.contains(f) ==>
            has_edge(vs, f) && bubble_of(vs2, f).id == b2,
    ensures
        forall|i: int| 0 <= i < bs2[b].edges@.len() ==> #[trigger] boundary_ok(vs2, bs2, b, i),
{
    let d = vs.dom();
    let tw2 = slide_twins(vs, e);
    let t = twin_of(vs, e);
    let ep = e.spec_prev_on_vertex();
    let tp = t.spec_prev_on_vertex();
    let x = twin_of(vs, ep);
    let y = twin_of(vs, tp);
    let top = bubble_of(vs, e).id;
    let bot = bubble_of(vs, t).id;
    let lft = bubble_of(vs, y).id;
    let rgt = bubble_of(vs, x).id;
    lemma_slide_orbits(vs, bs, e);
    lemma_slide_labels(vs, bs, e, vs2, bs2);
    lemma_slide_pairs_of(vs, bs, e);
    assert(vs2.dom() == d && twins_are(vs2, tw2));
    assert(bs.dom().contains(b));
    if b == rgt {
        lemma_orbit_list_ok(vs2, bs2, tw2, tp, (bs[rgt].edges@.len() + 1) as nat, b);
    } else if b == lft {
        lemma_orbit_list_ok(vs2, bs2, tw2, ep, (bs[lft].edges@.len() + 1) as nat, b);
    } else if b == bot {
        lemma_orbit_list_ok(vs2, bs2, tw2, t, (bs[bot].edges@.len() - 1) as nat, b);
    } else if b == top {
        lemma_orbit_list_ok(vs2, bs2, tw2, e, (bs[top].edges@.len() - 1) as nat, b);
    } else {
        assert(bs2[b].edges@ == bs[b].edges@);
        assert forall|i: int| 0 <= i < bs2[b].edges@.len() implies #[trigger] boundary_ok(vs2, bs2, b, i) by {
            let f = bs[b].edges@[i];
            assert(bs2[b].edges@.contains(f));
            reveal(lists_follow);
            assert(bs[b].edges@.contains(f));
            assert(has_edge(vs, f));
            assert(bubble_of(vs, f).id == b);
            lemma_untouched_boundary(vs, bs, e, vs2, bs2, b, i);
        }
    }
}

/// After the slide, every position of every list is in order.
proof fn lemma_new_boundaries(vs: Map<u64, Vertex>, bs: Map<u64, Bubble>, e: EdgeKey, vs2: Map<u64, Vertex>, bs2: Map<u64, Bubble>)
    requires
        slide_setting(vs, bs, e, vs2, bs2),
    ensures
        forall|b: u64, i: int| bs2.dom().contains(b) && 0 <= i < bs2[b].edges@.len() ==> #[trigger] boundary_ok(vs2, bs2, b, i),
{
    lemma_new_claims(vs, bs, e, vs2, bs2);
    assert forall|b: u64, i: int| bs2.dom().contains(b) && 0 <= i < bs2[b].edges@.len() implies
        #[trigger] boundary_ok(vs2, bs2, b, i) by {
        lemma_new_boundary_one(vs, bs, e, vs2, bs2, b);
    }
}

/// After the slide, the edge `f` is in some list.
#[verifier::rlimit(40)]
#[verifier::spinoff_prover]
proof fn lemma_new_listed_one(vs: Map<u64, Vertex>, bs: Map<u64, Bubble>, e: EdgeKey, vs2: Map<u64, Vertex>, bs2: Map<u64, Bubble>, f: EdgeKey)
    requires
        slide_setting(vs, bs, e, vs2, bs2),
        has_edge(vs2, f),
    ensures
        listed(bs2, f),
{
    let d = vs.dom();
    let tw2 = slide_twins(vs, e);
    let t = twin_of(vs, e);
    let ep = e.spec_prev_on_vertex();
    let tp = t.spec_prev_on_vertex();
    let x = twin_of(vs, ep);
    let y = twin_of(vs, tp);
    let top = bubble_of(vs, e).id;
    let bot = bubble_of(vs, t).id;
    let lft = bubble_of(vs, y).id;
    let rgt = bubble_of(vs, x).id;
    lemma_slide_orbits(vs, bs, e);
    lemma_slide_labels(vs, bs, e, vs2, bs2);
    reveal(lists_follow);
    assert(has_edge(vs, ep) && has_edge(vs, tp) && has_edge(vs, t));
    assert(has_edge(vs, x) && has_edge(vs, y)) by {
        assert(edge_set(d).contains(ep) && edge_set(d).contains(tp));
        assert(edge_set(d).contains(twins(vs)(ep)) && edge_set(d).contains(twins(vs)(tp)));
    }
    assert(bs.dom().contains(top) && bs.dom().contains(bot) && bs.dom().contains(lft) && bs.dom().contains(rgt));
    assert(has_edge(vs, f));
    let bf = bubble_of(vs, f).id;
    assert(bs.dom().contains(bf) && bs[bf].edges@.contains(f));
    let b: u64 = if f == tp {
        rgt
    } else if f == ep {
        lft
    } else {
        bf
    };
    if f == tp {
        assert(orbit_by(tw2, d, tp).contains(f));
    } else if f == ep {
        assert(orbit_by(tw2, d, ep).contains(f));
    } else if bf == rgt {
        assert(orbit_by(tw2, d, tp).contains(f));
    } else if bf == lft {
        assert(orbit_by(tw2, d, ep).contains(f));
    } else if bf == bot {
        assert(orbit_by(tw2, d, t).contains(f));
    } else if bf == top {
        assert(orbit_by(tw2, d, e).contains(f));
    } else {
        assert(bs2[bf].edges@ == bs[bf].edges@);
    }
    assert(bs.dom().contains(b));
    assert(bs2[b].edges@.contains(f));
    let l = bs2[b].edges@;
    let i = choose|i: int| 0 <= i < l.len() && l[i] == f;
    assert(bs2.dom().contains(b) && bs2[b].edges@[i] == f);
}

/// After the slide, every edge is in some list.
proof fn lemma_new_listed(vs: Map<u64, Vertex>, bs: Map<u64, Bubble>, e: EdgeKey, vs2: Map<u64, Vertex>, bs2: Map<u64, Bubble>)
    requires
        slide_setting(vs, bs, e, vs2, bs2),
    ensures
        forall|f: EdgeKey| #[trigger] has_edge(vs2, f) ==> listed(bs2, f),
{
    assert forall|f: EdgeKey| #[trigger] has_edge(vs2, f) implies listed(bs2, f) by {
        lemma_new_listed_one(vs, bs, e, vs2, bs2, f);
    }
}

/// After the slide, no list is empty and no edge is listed twice.
proof fn lemma_new_no_repeats(vs: Map<u64, Vertex>, bs: Map<u64, Bubble>, e: EdgeKey, vs2: Map<u64, Vertex>, bs2: Map<u64, Bubble>)
    requires
        slide_setting(vs, bs, e, vs2, bs2),
        forall|b: u64, i: int| bs2.dom().contains(b) && 0 <= i < bs2[b].edges@.len() ==> #[trigger] boundary_ok(vs2, bs2, b, i),
    ensures
        forall|b: u64| #[trigger] bs2.dom().contains(b) ==> bs2[b].edges@.len() > 0,
        forall|b1: u64, i1: int, b2: u64, i2: int|
            bs2.dom().contains(b1) && 0 <= i1 < bs2[b1].edges@.len() && bs2.dom().contains(b2) && 0 <= i2 < bs2[b2].edges@.len()
            && (b1 != b2 || i1 != i2) ==> #[trigger] bs2[b1].edges@[i1] != #[trigger] bs2[b2].edges@[i2],
{
    let d = vs.dom();
    lemma_slide_orbits(vs, bs, e);
    lemma_slide_labels(vs, bs, e, vs2, bs2);
    reveal(lists_follow);
    assert forall|b: u64| #[trigger] bs2.dom().contains(b) implies bs2[b].edges@.len() > 0 by {
        assert(bs.dom().contains(b));
        assert(list_good(twins(vs), d, bs[b].edges@));
    }
    assert forall|b1: u64, i1: int, b2: u64, i2: int|
        bs2.dom().contains(b1) && 0 <= i1 < bs2[b1].edges@.len() && bs2.dom().contains(b2) && 0 <= i2 < bs2[b2].edges@.len()
        && (b1 != b2 || i1 != i2) implies #[trigger] bs2[b1].edges@[i1] != #[trigger] bs2[b2].edges@[i2] by {
        assert(boundary_ok(vs2, bs2, b1, i1) && boundary_ok(vs2, bs2, b2, i2));
        if b1 == b2 {
            assert(bs.dom().contains(b1));
            assert(list_good(twins(vs), d, bs[b1].edges@));
            assert(bs2[b1].edges@.no_duplicates());
        }
    }
}

/// A slide keeps the invariants of the graph: in a graph that keeps them,
/// sliding a wall whose walks close as the slide needs leaves a graph that
/// keeps them too, when the slide leaves the graph as it is, or the six edges around
/// the wall differ and so do either the four bubbles around it or, for a
/// wall with the same bubble on both sides, that bubble and the two at its
/// ends.
pub proof fn law_slide_keeps_sane(vs: Map<u64, Vertex>, bs: Map<u64, Bubble>, e: EdgeKey, vs2: Map<u64, Vertex>, bs2: Map<u64, Bubble>)
    requires
        keys_valid(vs, bs),
        sane(vs, bs),
        slide_reads_ok(vs, bs, e),
        slide_flips(vs, e) ==> slide_six_distinct(vs, e) && (four_distinct(vs, e) || fold_distinct(vs, e)),
        slide_post(vs, bs, e, vs2, bs2),
    ensures
        sane(vs2, bs2),
        keys_valid(vs2, bs2),
{
    if slide_flips(vs, e) {
        lemma_sane_lists_follow(vs, bs);
        lemma_sane_graph_ok(vs, bs);
        assert(relinked_rebubbled(vs, bs, vs2, bs2, slide_twins(vs, e), slide_chain(vs, e)));
        if four_distinct(vs, e) {
            assert(slide_setting(vs, bs, e, vs2, bs2));
            lemma_slide_listing(vs, bs, e, vs2, bs2);
        } else {
            assert(fold_setting(vs, bs, e, vs2, bs2));
            lemma_fold_listing(vs, bs, e, vs2, bs2);
        }
        assert(euler_ok(vs2, bs2));
    }
}

/// After the slide, the lists keep their invariants.
proof fn lemma_slide_listing(vs: Map<u64, Vertex>, bs: Map<u64, Bubble>, e: EdgeKey, vs2: Map<u64, Vertex>, bs2: Map<u64, Bubble>)
    requires
        slide_setting(vs, bs, e, vs2, bs2),
    ensures
        listing_ok(vs2, bs2),
{
    lemma_new_boundaries(vs, bs, e, vs2, bs2);
    lemma_new_listed(vs, bs, e, vs2, bs2);
    lemma_new_no_repeats(vs, bs, e, vs2, bs2);
    let o = choose|o: u64| sole_open_air(bs, o);
    assert(sole_open_air(bs2, o)) by {
        assert forall|j: u64| bs2.dom().contains(j) && (#[trigger] bs2[j].style).is_open_air() implies j == o by {
            assert(bs.dom().contains(j));
        }
    }
}

/// The twins after the slide pair up the edges.
proof fn lemma_slide_pairs_of(vs: Map<u64, Vertex>, bs: Map<u64, Bubble>, e: EdgeKey)
    requires
        lists_follow(vs, bs),
        has_edge(vs, e),
        slide_six_distinct(vs, e),
    ensures
        pairs_up(slide_twins(vs, e), vs.dom()),
{
    reveal(lists_follow);
    lemma_slide_pairs(vs, e);
}

/// Each slide of `es` in turn, whatever the earlier slides made, is of a
/// wall that the slide law covers: it leaves the graph as it is, or the six
/// edges around the wall differ and so do either the four bubbles around it
/// or, for a wall with the same bubble on both sides, that bubble and the
/// two at its ends.
pub open spec fn slides_tame(vs: Map<u64, Vertex>, bs: Map<u64, Bubble>, es: Seq<EdgeKey>) -> bool
    decreases es.len(),
{
    es.len() > 0 ==> {
        &&& slide_flips(vs, es[0]) ==> slide_six_distinct(vs, es[0])
            && (four_distinct(vs, es[0]) || fold_distinct(vs, es[0]))
        &&& forall|vm: Map<u64, Vertex>, bm: Map<u64, Bubble>|
            #[trigger] slide_post(vs, bs, es[0], vm, bm) ==> slides_tame(vm, bm, es.drop_first())
    }
}

/// From the `k`-th state of a trace of slides on, the invariants last to
/// the end.
proof fn lemma_trace_sane(states: Seq<(Map<u64, Vertex>, Map<u64, Bubble>)>, es: Seq<EdgeKey>, k: int)
    requires
        slide_trace(states, es),
        0 <= k <= es.len(),
        keys_valid(states[k].0, states[k].1),
        sane(states[k].0, states[k].1),
        slides_ok(states[k].0, states[k].1, es.skip(k)),
        slides_tame(states[k].0, states[k].1, es.skip(k)),
    ensures
        keys_valid(states.last().0, states.last().1),
        sane(states.last().0, states.last().1),
    decreases es.len() - k,
{
    if k < es.len() {
        let (vs, bs) = states[k];
        let (vs2, bs2) = states[k + 1];
        let rest = es.skip(k);
        assert(rest[0] == es[k]);
        assert(rest.drop_first() =~= es.skip(k + 1));
        assert(slide_post(vs, bs, es[k], vs2, bs2));
        assert(slide_reads_ok(vs, bs, es[k]));
        law_slide_keeps_sane(vs, bs, es[k], vs2, bs2);
        lemma_trace_sane(states, es, k + 1);
    }
}

/// Slides in turn keep the invariants of the graph, when each can be taken
/// and each is of a wall that the slide law covers.
pub proof fn law_slides_keep_sane(vs: Map<u64, Vertex>, bs: Map<u64, Bubble>, es: Seq<EdgeKey>, vs2: Map<u64, Vertex>, bs2: Map<u64, Bubble>)
    requires
        keys_valid(vs, bs),
        sane(vs, bs),
        slides_ok(vs, bs, es),
        slides_tame(vs, bs, es),
        slides_post(vs, bs, es, vs2, bs2),
    ensures
        keys_valid(vs2, bs2),
        sane(vs2, bs2),
{
    let states = choose|states: Seq<(Map<u64, Vertex>, Map<u64, Bubble>)>|
        #[trigger] slide_trace(states, es) && states[0] == (vs, bs) && states.last() == (vs2, bs2);
    assert(es.skip(0) =~= es);
    lemma_trace_sane(states, es, 0);
}

} // verus!
