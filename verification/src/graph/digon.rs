//! The merging step of the removal of a wall of a bubble with two edges:
//! both walls of that bubble go with the wall's two vertices, the outer
//! walls at the two ends join, and the far bubble and the bubble at both
//! ends of the wall each lose the two edges next to the wall.
use vstd::prelude::*;
use crate::graph::bubble::{Bubble, BubbleKey};
use crate::graph::closure::{
    edge_set, law_paired_walks_close, lemma_closes_by_more, lemma_edge_set_size, lemma_sane_pairs, pairs_up,
};
use crate::graph::edge::EdgeKey;
use crate::graph::flip::{
    follows, lemma_closes_by_unique, lemma_follow, lemma_orbit_list_ok, lemma_return_bound, lemma_sane_lists_follow,
    lemma_walk_shift, lemma_wrap, list_good, lists_follow, next_by,
};
use crate::graph::growth::lemma_next_same_bubble;
use crate::graph::laws::law_merge_keeps_counts;
use crate::graph::merge::{lemma_edge_facts, lemma_orbit_wider, merge_sides};
use crate::graph::spec::{
    boundary_ok, bubble_of, chain_label, chain_list, closes_by, closes_by_at, keys_valid, linked, listed, listing_ok,
    merged, orbit_by, remove_blocked, remove_case, remove_chain, remove_links_ok, remove_twins, sane, sole_open_air,
    twin_of, twins, twins_are, walk_by,
};
use crate::graph::vertex::{has_edge, next_edge, Vertex};
use crate::slots::{issued_key, odd_version};

verus! {

/// A boundary loses the two edges after position `a`: when the new twins
/// `tw2` send `l[a]` where the old ones sent the second of them, and agree
/// with the old ones on the rest of the boundary, the walk from `l[a]`
/// under `tw2` runs along the old boundary without those two edges.
#[verifier::rlimit(60)]
#[verifier::spinoff_prover]
pub proof fn lemma_shrink_two(
    tw: spec_fn(EdgeKey) -> EdgeKey,
    tw2: spec_fn(EdgeKey) -> EdgeKey,
    d: Set<u64>,
    dc: Set<u64>,
    l: Seq<EdgeKey>,
    a: int,
)
    requires
        3 <= l.len(),
        closes_by(tw2, dc, l[a]),
        0 <= a < l.len(),
        l.no_duplicates(),
        follows(tw, l),
        pairs_up(tw2, d),
        forall|i: int| 0 <= i < l.len() && i != (a + 1) % (l.len() as int) && i != (a + 2) % (l.len() as int)
            ==> edge_set(d).contains(#[trigger] l[i]),
        next_by(tw2, l[a]) == next_by(tw, l[(a + 2) % (l.len() as int)]),
        forall|i: int| 0 <= i < l.len() && i != a && i != (a + 1) % (l.len() as int) && i != (a + 2) % (l.len() as int)
            ==> tw2(#[trigger] l[i]) == tw(l[i]),
    ensures
        closes_by_at(tw2, d, l[a], (l.len() - 2) as nat),
        orbit_by(tw2, d, l[a]).no_duplicates(),
        forall|f: EdgeKey| #![trigger orbit_by(tw2, d, l[a]).contains(f)]
            orbit_by(tw2, d, l[a]).contains(f) <==> (
                l.contains(f) && f != l[(a + 1) % (l.len() as int)] && f != l[(a + 2) % (l.len() as int)]),
{
    let n = l.len() as int;
    let u = l[a];
    lemma_wrap(a + 1, n);
    lemma_wrap(a + 2, n);
    lemma_wrap(a + 3, n);
    let j = (a + 3) % n;
    lemma_wrap((a + 2) % n + 1, n);
    assert(next_by(tw, l[(a + 2) % n]) == l[((a + 2) % n + 1) % n]);
    assert(((a + 2) % n + 1) % n == j);
    assert(next_by(tw2, u) == l[j]);
    assert forall|m: int| 0 <= m < n - 3 implies #[trigger] next_by(tw2, l[(j + m) % n]) == l[(j + m + 1) % n] by {
        lemma_wrap(j + m, n);
        lemma_wrap(a + 3 + m, n);
        let p = (j + m) % n;
        assert(p == (a + 3 + m) % n);
        assert(p != a && p != (a + 1) % n && p != (a + 2) % n);
        assert(tw2(l[p]) == tw(l[p]));
        assert(next_by(tw, l[p]) == l[(p + 1) % n]);
        lemma_wrap(p + 1, n);
        lemma_wrap(j + m + 1, n);
        assert((p + 1) % n == (j + m + 1) % n);
    }
    assert forall|k: nat| 1 <= k <= n - 2 implies #[trigger] walk_by(tw2, u, k) == l[(a + 2 + k) % n] by {
        lemma_walk_shift(tw2, u, (k - 1) as nat);
        lemma_follow(tw2, l, j, (n - 3) as nat, (k - 1) as nat);
        lemma_wrap(j + (k - 1), n);
        lemma_wrap(a + 2 + k, n);
        assert((j + (k - 1)) % n == (a + 2 + k) % n);
    }
    lemma_wrap(a + n, n);
    assert(walk_by(tw2, u, (n - 2) as nat) == l[(a + n) % n]);
    assert((a + n) % n == a);
    assert forall|k: nat| 0 < k < n - 2 implies #[trigger] walk_by(tw2, u, k) != u by {
        assert(walk_by(tw2, u, k) == l[(a + 2 + k) % n]);
        lemma_wrap(a + 2 + k, n);
        assert((a + 2 + k) % n != a);
    }
    assert forall|k: nat| k < n - 2 implies (#[trigger] walk_by(tw2, u, k)).offset < 3
        && d.contains(walk_by(tw2, u, k).vertex.id) && tw2(walk_by(tw2, u, k)).valid() by {
        let w = walk_by(tw2, u, k);
        if k == 0 {
            assert(edge_set(d).contains(l[a]));
        } else {
            assert(w == l[(a + 2 + k) % n]);
            lemma_wrap(a + 2 + k, n);
            assert((a + 2 + k) % n != (a + 1) % n && (a + 2 + k) % n != (a + 2) % n);
            assert(edge_set(d).contains(l[(a + 2 + k) % n]));
        }
        assert(edge_set(d).contains(w));
        assert(edge_set(d).contains(tw2(w)));
    }
    lemma_return_bound(tw2, dc, u, (n - 2) as nat);
    assert(closes_by_at(tw2, d, u, (n - 2) as nat));
    lemma_closes_by_unique(tw2, d, u, (n - 2) as nat);
    let o = orbit_by(tw2, d, u);
    assert(o.len() == n - 2);
    assert forall|k: int| 0 <= k < n - 2 implies #[trigger] o[k] == (if k == 0 { l[a] } else { l[(a + 2 + k) % n] }) by {
        assert(o[k] == walk_by(tw2, u, k as nat));
    }
    assert forall|i: int, i2: int| 0 <= i < i2 < o.len() implies o[i] != o[i2] by {
        lemma_wrap(a + 2 + i2, n);
        if i > 0 {
            lemma_wrap(a + 2 + i, n);
        }
    }
    assert forall|f: EdgeKey| o.contains(f) <==> (l.contains(f) && f != l[(a + 1) % n] && f != l[(a + 2) % n]) by {
        if o.contains(f) {
            let k = choose|k: int| 0 <= k < o.len() && o[k] == f;
            if k > 0 {
                lemma_wrap(a + 2 + k, n);
            }
        }
        if l.contains(f) && f != l[(a + 1) % n] && f != l[(a + 2) % n] {
            let p = choose|p: int| 0 <= p < n && l[p] == f;
            if p == a {
                assert(o[0] == f);
            } else {
                let k = if p > a + 2 { p - a - 2 } else { p + n - a - 2 };
                lemma_wrap(a + 2 + k, n);
                assert(o[k] == f);
            }
        }
    }
}


/// Around a wall of `e` whose top bubble has two edges: the wall joins two
/// different vertices, and the twins of the edge before `e` and of the edge
/// after its twin lie elsewhere and differ.
pub open spec fn digon_apart(vs: Map<u64, Vertex>, e: EdgeKey) -> bool {
    let t = twin_of(vs, e);
    let ept = twin_of(vs, e.spec_prev_on_vertex());
    let tnt = twin_of(vs, t.spec_next_on_vertex());
    &&& e.vertex.id != t.vertex.id
    &&& ept.vertex.id != e.vertex.id && ept.vertex.id != t.vertex.id
    &&& tnt.vertex.id != e.vertex.id && tnt.vertex.id != t.vertex.id
    &&& ept != tnt
}

/// The setting of a proof about the removal of a wall of a bubble with two
/// edges, on its top side.
pub open spec fn digon_fresh(vs: Map<u64, Vertex>, bs: Map<u64, Bubble>, e: EdgeKey) -> bool {
    &&& lists_follow(vs, bs)
    &&& remove_links_ok(vs, e)
    &&& has_edge(vs, e)
    &&& remove_case(vs, e) == 1
    &&& digon_apart(vs, e)
    &&& merge_sides(vs, e)
}

/// A wall whose removal is not refused, in a graph that keeps its
/// invariants, whose top bubble has two edges and whose bottom bubble has
/// more, has the shape `digon_apart` describes.
pub proof fn lemma_digon_apart(vs: Map<u64, Vertex>, bs: Map<u64, Bubble>, e: EdgeKey)
    requires
        keys_valid(vs, bs),
        sane(vs, bs),
        has_edge(vs, e),
        !remove_blocked(vs, bs, e),
        remove_case(vs, e) == 1,
        e.spec_prev_on_vertex() != twin_of(vs, twin_of(vs, e).spec_next_on_vertex()),
    ensures
        digon_apart(vs, e),
{
    let t = twin_of(vs, e);
    let en = e.spec_next_on_vertex();
    let ep = e.spec_prev_on_vertex();
    lemma_edge_facts(vs, bs, e);
    lemma_edge_facts(vs, bs, en);
    lemma_edge_facts(vs, bs, ep);
    let tn = t.spec_next_on_vertex();
    let tp = t.spec_prev_on_vertex();
    lemma_edge_facts(vs, bs, t);
    lemma_edge_facts(vs, bs, tn);
    lemma_edge_facts(vs, bs, tp);
    assert(en.spec_prev_on_vertex() == e && ep.spec_prev_on_vertex() == en && e.spec_prev_on_vertex() == ep);
    assert(tn.spec_prev_on_vertex() == t && tp.spec_prev_on_vertex() == tn && t.spec_prev_on_vertex() == tp);
    assert(ep.spec_next_on_vertex() == e && tp.spec_next_on_vertex() == t);
}

/// Around such a wall: the edges of its two vertices and the outer twins
/// exist, and each claims the bubble it runs along.
pub proof fn lemma_digon_around(vs: Map<u64, Vertex>, bs: Map<u64, Bubble>, e: EdgeKey)
    requires
        digon_fresh(vs, bs, e),
    ensures
        ({
            let t = twin_of(vs, e);
            let en = e.spec_next_on_vertex();
            let ep = e.spec_prev_on_vertex();
            let tn = t.spec_next_on_vertex();
            let tp = t.spec_prev_on_vertex();
            let ept = twin_of(vs, ep);
            let tnt = twin_of(vs, tn);
            &&& has_edge(vs, t) && has_edge(vs, en) && has_edge(vs, ep) && has_edge(vs, tn) && has_edge(vs, tp)
            &&& has_edge(vs, ept) && has_edge(vs, tnt)
            &&& twin_of(vs, t) == e && twin_of(vs, en) == tp && twin_of(vs, tp) == en
            &&& twin_of(vs, ept) == ep && twin_of(vs, tnt) == tn
            &&& bubble_of(vs, tp) == bubble_of(vs, e) && bubble_of(vs, ep) == bubble_of(vs, t)
            &&& bubble_of(vs, tnt) == bubble_of(vs, t)
            &&& bubble_of(vs, ept) == bubble_of(vs, en) && bubble_of(vs, tn) == bubble_of(vs, en)
            &&& next_by(twins(vs), tnt) == t && next_by(twins(vs), t) == ep
            &&& next_by(twins(vs), ept) == en && next_by(twins(vs), en) == tn
            &&& next_by(twins(vs), e) == tp && next_by(twins(vs), tp) == e
        }),
{
    reveal(lists_follow);
    let d = vs.dom();
    let tw = twins(vs);
    let t = tw(e);
    let en = e.spec_next_on_vertex();
    let ep = e.spec_prev_on_vertex();
    assert(edge_set(d).contains(e) && edge_set(d).contains(en) && edge_set(d).contains(ep));
    assert(edge_set(d).contains(t));
    let tn = t.spec_next_on_vertex();
    let tp = t.spec_prev_on_vertex();
    assert(edge_set(d).contains(tn) && edge_set(d).contains(tp));
    let ept = tw(ep);
    let tnt = tw(tn);
    assert(edge_set(d).contains(ept) && edge_set(d).contains(tnt));
    assert(tw(ept) == ep && tw(tnt) == tn && tw(t) == e && tw(tp) == en && tw(en) == tp);
    lemma_next_same_bubble(vs, bs, tnt);
    lemma_next_same_bubble(vs, bs, t);
    lemma_next_same_bubble(vs, bs, ept);
    lemma_next_same_bubble(vs, bs, en);
    lemma_next_same_bubble(vs, bs, e);
}

/// The twins before and after such a removal pair up the edges, the new
/// ones being the old ones with the two outer twins linked.
pub proof fn lemma_digon_start(vs: Map<u64, Vertex>, bs: Map<u64, Bubble>, e: EdgeKey)
    requires
        digon_fresh(vs, bs, e),
    ensures
        pairs_up(twins(vs), vs.dom()),
        remove_twins(vs, e) == linked(twins(vs), twin_of(vs, e.spec_prev_on_vertex()),
            twin_of(vs, twin_of(vs, e).spec_next_on_vertex())),
        pairs_up(remove_twins(vs, e), vs.dom().remove(e.vertex.id).remove(twin_of(vs, e).vertex.id)),
{
    reveal(lists_follow);
    lemma_digon_around(vs, bs, e);
    let d = vs.dom();
    let tw = twins(vs);
    let t = tw(e);
    let en = e.spec_next_on_vertex();
    let ep = e.spec_prev_on_vertex();
    let tn = t.spec_next_on_vertex();
    let tp = t.spec_prev_on_vertex();
    let ept = tw(ep);
    let tnt = tw(tn);
    let d2 = d.remove(e.vertex.id).remove(t.vertex.id);
    let tw2 = remove_twins(vs, e);
    assert(tw2 == linked(tw, ept, tnt)) by {
        reveal(remove_twins);
    }
    assert forall|f: EdgeKey| #[trigger] edge_set(d2).contains(f) implies edge_set(d2).contains(tw2(f)) && tw2(tw2(f)) == f by {
        assert(edge_set(d).contains(f));
        if f != ept && f != tnt {
            let g = tw(f);
            assert(edge_set(d).contains(g) && tw(g) == f);
            if g.vertex.id == e.vertex.id {
                assert(g == e || g == en || g == ep);
            }
            if g.vertex.id == t.vertex.id {
                assert(g == t || g == tn || g == tp);
            }
            assert(g != ept && g != tnt);
        }
    }
}

/// After such a removal, the walk from the twin of the edge after the
/// wall's twin goes round the bottom bubble without the wall's twin and the
/// edge after it.
#[verifier::rlimit(40)]
proof fn lemma_digon_top(vs: Map<u64, Vertex>, bs: Map<u64, Bubble>, e: EdgeKey)
    requires
        digon_fresh(vs, bs, e),
    ensures
        ({
            let t = twin_of(vs, e);
            let d2 = vs.dom().remove(e.vertex.id).remove(t.vertex.id);
            let tw2 = remove_twins(vs, e);
            let s = twin_of(vs, t.spec_next_on_vertex());
            let l = bs[bubble_of(vs, t).id].edges@;
            &&& closes_by_at(tw2, d2, s, (l.len() - 2) as nat)
            &&& orbit_by(tw2, vs.dom(), s) == orbit_by(tw2, d2, s)
            &&& orbit_by(tw2, d2, s).no_duplicates()
            &&& forall|f: EdgeKey| #![trigger orbit_by(tw2, d2, s).contains(f)] #![trigger l.contains(f)]
                orbit_by(tw2, d2, s).contains(f) <==> (l.contains(f) && f != t && f != e.spec_prev_on_vertex())
        }),
{
    lemma_digon_start(vs, bs, e);
    lemma_digon_around(vs, bs, e);
    reveal(lists_follow);
    let d = vs.dom();
    let tw = twins(vs);
    let t = tw(e);
    let u = e.vertex.id;
    let w = t.vertex.id;
    let d2 = d.remove(u).remove(w);
    let tw2 = remove_twins(vs, e);
    let en = e.spec_next_on_vertex();
    let ep = e.spec_prev_on_vertex();
    let tn = t.spec_next_on_vertex();
    let tp = t.spec_prev_on_vertex();
    let ept = tw(ep);
    let tnt = tw(tn);
    let b = bubble_of(vs, t).id;
    let l = bs[b].edges@;
    assert(bs.dom().contains(b));
    assert(list_good(tw, d, l));
    assert(l.contains(tnt));
    let n = l.len() as int;
    let a = choose|i: int| 0 <= i < n && l[i] == tnt;
    lemma_wrap(a + 1, n);
    lemma_wrap(a + 2, n);
    lemma_wrap((a + 1) % n + 1, n);
    assert(next_by(tw, l[a]) == l[(a + 1) % n]);
    assert(l[(a + 1) % n] == t);
    assert(next_by(tw, l[(a + 1) % n]) == l[((a + 1) % n + 1) % n]);
    assert(l[(a + 2) % n] == ep);
    assert(n >= 3) by {
        if n == 1 {
            assert(l[(a + 1) % n] == l[a]);
        } else if n == 2 {
            assert(l[(a + 2) % n] == l[a]);
        }
    }
    assert forall|i: int| 0 <= i < n && i != (a + 1) % n && i != (a + 2) % n implies edge_set(d2).contains(#[trigger] l[i]) by {
        let f = l[i];
        assert(l.contains(f));
        assert(bubble_of(vs, f).id == b);
        assert(edge_set(d).contains(f));
        assert(f != t && f != ep);
        assert(f != e && f != en && f != tn && f != tp);
        if f.vertex.id == u {
            assert(f == e || f == en || f == ep);
        }
        if f.vertex.id == w {
            assert(f == t || f == tn || f == tp);
        }
    }
    assert forall|i: int| 0 <= i < n && i != a && i != (a + 1) % n && i != (a + 2) % n
        implies tw2(#[trigger] l[i]) == tw(l[i]) by {
        let f = l[i];
        assert(l.contains(f));
        assert(bubble_of(vs, f).id == b);
        assert(f != ept && f != tnt);
    }
    assert(next_by(tw2, l[a]) == next_by(tw, l[(a + 2) % n]));
    assert(closes_by(tw2, d, tnt));
    lemma_shrink_two(tw, tw2, d2, d, l, a);
    lemma_orbit_wider(tw2, d2, d, tnt, (n - 2) as nat);
}

/// After such a removal, the walk from the twin of the edge before the wall
/// goes round the bubble at the wall's two ends without the two edges
/// there.
#[verifier::rlimit(40)]
proof fn lemma_digon_side(vs: Map<u64, Vertex>, bs: Map<u64, Bubble>, e: EdgeKey)
    requires
        digon_fresh(vs, bs, e),
    ensures
        ({
            let t = twin_of(vs, e);
            let d2 = vs.dom().remove(e.vertex.id).remove(t.vertex.id);
            let tw2 = remove_twins(vs, e);
            let en = e.spec_next_on_vertex();
            let s = twin_of(vs, e.spec_prev_on_vertex());
            let l = bs[bubble_of(vs, en).id].edges@;
            &&& closes_by_at(tw2, d2, s, (l.len() - 2) as nat)
            &&& orbit_by(tw2, vs.dom(), s) == orbit_by(tw2, d2, s)
            &&& orbit_by(tw2, d2, s).no_duplicates()
            &&& forall|f: EdgeKey| #![trigger orbit_by(tw2, d2, s).contains(f)] #![trigger l.contains(f)]
                orbit_by(tw2, d2, s).contains(f) <==> (l.contains(f) && f != en && f != t.spec_next_on_vertex())
        }),
{
    lemma_digon_start(vs, bs, e);
    lemma_digon_around(vs, bs, e);
    reveal(lists_follow);
    let d = vs.dom();
    let tw = twins(vs);
    let t = tw(e);
    let u = e.vertex.id;
    let w = t.vertex.id;
    let d2 = d.remove(u).remove(w);
    let tw2 = remove_twins(vs, e);
    let en = e.spec_next_on_vertex();
    let ep = e.spec_prev_on_vertex();
    let tn = t.spec_next_on_vertex();
    let tp = t.spec_prev_on_vertex();
    let ept = tw(ep);
    let tnt = tw(tn);
    let b = bubble_of(vs, en).id;
    let l = bs[b].edges@;
    assert(bs.dom().contains(b));
    assert(list_good(tw, d, l));
    assert(l.contains(ept));
    let n = l.len() as int;
    let a = choose|i: int| 0 <= i < n && l[i] == ept;
    lemma_wrap(a + 1, n);
    lemma_wrap(a + 2, n);
    lemma_wrap((a + 1) % n + 1, n);
    assert(next_by(tw, l[a]) == l[(a + 1) % n]);
    assert(l[(a + 1) % n] == en);
    assert(next_by(tw, l[(a + 1) % n]) == l[((a + 1) % n + 1) % n]);
    assert(l[(a + 2) % n] == tn);
    assert(n >= 3) by {
        if n == 1 {
            assert(l[(a + 1) % n] == l[a]);
        } else if n == 2 {
            assert(l[(a + 2) % n] == l[a]);
        }
    }
    assert forall|i: int| 0 <= i < n && i != (a + 1) % n && i != (a + 2) % n implies edge_set(d2).contains(#[trigger] l[i]) by {
        let f = l[i];
        assert(l.contains(f));
        assert(bubble_of(vs, f).id == b);
        assert(edge_set(d).contains(f));
        assert(f != en && f != tn);
        assert(f != e && f != t && f != ep && f != tp);
        if f.vertex.id == u {
            assert(f == e || f == en || f == ep);
        }
        if f.vertex.id == w {
            assert(f == t || f == tn || f == tp);
        }
    }
    assert forall|i: int| 0 <= i < n && i != a && i != (a + 1) % n && i != (a + 2) % n
        implies tw2(#[trigger] l[i]) == tw(l[i]) by {
        let f = l[i];
        assert(l.contains(f));
        assert(bubble_of(vs, f).id == b);
        assert(f != ept && f != tnt);
    }
    assert(next_by(tw2, l[a]) == next_by(tw, l[(a + 2) % n]));
    assert(closes_by(tw2, d, ept));
    lemma_shrink_two(tw, tw2, d2, d, l, a);
    lemma_orbit_wider(tw2, d2, d, ept, (n - 2) as nat);
}

/// The top bubble of such a wall has just the wall's edge and the edge
/// before the twin.
proof fn lemma_digon_pair(vs: Map<u64, Vertex>, bs: Map<u64, Bubble>, e: EdgeKey, f: EdgeKey)
    requires
        digon_fresh(vs, bs, e),
        bs[bubble_of(vs, e).id].edges@.contains(f),
    ensures
        f == e || f == twin_of(vs, e).spec_prev_on_vertex(),
{
    lemma_digon_around(vs, bs, e);
    reveal(lists_follow);
    let d = vs.dom();
    let tw = twins(vs);
    let t = tw(e);
    let tp = t.spec_prev_on_vertex();
    let b = bubble_of(vs, e).id;
    let l = bs[b].edges@;
    assert(bs.dom().contains(b));
    assert(list_good(tw, d, l));
    assert(l.contains(e));
    let n = l.len() as int;
    let p = choose|i: int| 0 <= i < n && l[i] == e;
    let q = choose|i: int| 0 <= i < n && l[i] == f;
    lemma_wrap(p + 1, n);
    lemma_wrap((p + 1) % n + 1, n);
    assert(next_by(tw, l[p]) == l[(p + 1) % n]);
    assert(l[(p + 1) % n] == tp);
    assert(next_by(tw, l[(p + 1) % n]) == l[((p + 1) % n + 1) % n]);
    assert(l[((p + 1) % n + 1) % n] == e);
    assert(((p + 1) % n + 1) % n == p);
    assert(q == p || q == (p + 1) % n);
}

/// After such a removal, the bubble each edge claims and the list of each
/// bubble: the top bubble takes the walk round the bottom one, the bubble
/// at the wall's ends its shorter walk, and everything else stays.
proof fn lemma_digon_labels(vs: Map<u64, Vertex>, bs: Map<u64, Bubble>, e: EdgeKey, vs2: Map<u64, Vertex>, bs2: Map<u64, Bubble>)
    requires
        digon_fresh(vs, bs, e),
        merged(vs, bs, e, vs2, bs2),
    ensures
        ({
            let t = twin_of(vs, e);
            let d = vs.dom();
            let tw2 = remove_twins(vs, e);
            let ot = orbit_by(tw2, d, twin_of(vs, t.spec_next_on_vertex()));
            let or = orbit_by(tw2, d, twin_of(vs, e.spec_prev_on_vertex()));
            let top = bubble_of(vs, e);
            let right = bubble_of(vs, e.spec_next_on_vertex());
            &&& forall|f: EdgeKey| #[trigger] has_edge(vs2, f) ==> bubble_of(vs2, f) == (
                if or.contains(f) { right } else if ot.contains(f) { top } else { bubble_of(vs, f) })
            &&& forall|b: u64| #[trigger] bs2.dom().contains(b) ==> bs2[b].edges@ == (
                if b == right.id { or } else if b == top.id { ot } else { bs[b].edges@ })
        }),
{
    let t = twin_of(vs, e);
    let d = vs.dom();
    let tw2 = remove_twins(vs, e);
    let ot = orbit_by(tw2, d, twin_of(vs, t.spec_next_on_vertex()));
    let or = orbit_by(tw2, d, twin_of(vs, e.spec_prev_on_vertex()));
    let top = bubble_of(vs, e);
    let right = bubble_of(vs, e.spec_next_on_vertex());
    let chain = remove_chain(vs, e);
    assert(chain =~= seq![(top, ot), (right, or)]);
    reveal_with_fuel(chain_label, 3);
    reveal_with_fuel(chain_list, 3);
    assert(chain.drop_last() =~= seq![(top, ot)]);
    assert(chain.drop_last().drop_last() =~= Seq::<(BubbleKey, Seq<EdgeKey>)>::empty());
    assert(top.id != right.id);
    assert forall|b: u64| #[trigger] bs2.dom().contains(b) implies bs2[b].edges@ == (
        if b == right.id { or } else if b == top.id { ot } else { bs[b].edges@ }) by {
        assert(bs2[b].edges@ == chain_list(chain, b, bs[b].edges@));
    }
}

/// The setting of the proof that such a removal's merge keeps the
/// invariants.
pub open spec fn digon_setting(vs: Map<u64, Vertex>, bs: Map<u64, Bubble>, e: EdgeKey, vs2: Map<u64, Vertex>, bs2: Map<u64, Bubble>) -> bool {
    &&& sane(vs, bs)
    &&& digon_fresh(vs, bs, e)
    &&& merged(vs, bs, e, vs2, bs2)
}

/// After such a merge, an edge of the list of bubble `b` is an edge of the
/// graph and claims `b`.
#[verifier::rlimit(60)]
#[verifier::spinoff_prover]
proof fn lemma_digon_claim_one(
    vs: Map<u64, Vertex>,
    bs: Map<u64, Bubble>,
    e: EdgeKey,
    vs2: Map<u64, Vertex>,
    bs2: Map<u64, Bubble>,
    b: u64,
    f: EdgeKey,
)
    requires
        digon_setting(vs, bs, e, vs2, bs2),
        bs2.dom().contains(b),
        bs2[b].edges@.contains(f),
    ensures
        has_edge(vs2, f),
        bubble_of(vs2, f).id == b,
{
    lemma_digon_around(vs, bs, e);
    lemma_digon_top(vs, bs, e);
    lemma_digon_side(vs, bs, e);
    lemma_digon_labels(vs, bs, e, vs2, bs2);
    reveal(lists_follow);
    let d = vs.dom();
    let tw = twins(vs);
    let tw2 = remove_twins(vs, e);
    let t = tw(e);
    let u = e.vertex.id;
    let w = t.vertex.id;
    let en = e.spec_next_on_vertex();
    let ep = e.spec_prev_on_vertex();
    let tn = t.spec_next_on_vertex();
    let tp = t.spec_prev_on_vertex();
    let ot = orbit_by(tw2, d, tw(tn));
    let or = orbit_by(tw2, d, tw(ep));
    let top = bubble_of(vs, e).id;
    let bottom = bubble_of(vs, t).id;
    let right = bubble_of(vs, en).id;
    let lb = bs[bottom].edges@;
    let lr = bs[right].edges@;
    assert(bs2.dom() == bs.dom().remove(bottom));
    assert(vs2.dom() == d.remove(u).remove(w));
    assert(bs.dom().contains(b));
    let l = bs[b].edges@;
    let lo: Seq<EdgeKey> = if b == right {
        lr
    } else if b == top {
        lb
    } else {
        l
    };
    if b == right {
        assert(or.contains(f));
        assert(lr.contains(f) && f != en && f != tn);
        assert(bubble_of(vs, f).id == right);
    } else if b == top {
        assert(ot.contains(f));
        assert(lb.contains(f));
        assert(bubble_of(vs, f).id == bottom);
        assert(!lr.contains(f));
        assert(!or.contains(f));
    } else {
        assert(l.contains(f));
        assert(bubble_of(vs, f).id == b);
        assert(!lr.contains(f) && !lb.contains(f));
        assert(!or.contains(f) && !ot.contains(f));
    }
    assert(lo.contains(f));
    let bo = bubble_of(vs, f).id;
    assert(bs.dom().contains(bo) && bs[bo].edges@ == lo);
    assert(list_good(tw, d, lo));
    let i = choose|i: int| 0 <= i < lo.len() && lo[i] == f;
    assert(edge_set(d).contains(lo[i]));
    assert(f != e && f != en && f != ep && f != t && f != tn && f != tp);
    if f.vertex.id == u {
        assert(f == e || f == en || f == ep);
    }
    if f.vertex.id == w {
        assert(f == t || f == tn || f == tp);
    }
    assert(has_edge(vs2, f));
}

/// After such a merge, each edge of each list claims the list's bubble.
proof fn lemma_digon_claims(vs: Map<u64, Vertex>, bs: Map<u64, Bubble>, e: EdgeKey, vs2: Map<u64, Vertex>, bs2: Map<u64, Bubble>)
    requires
        digon_setting(vs, bs, e, vs2, bs2),
    ensures
        forall|b: u64, f: EdgeKey| bs2.dom().contains(b) && #[trigger] bs2[b].edges@.contains(f) ==>
            has_edge(vs2, f) && bubble_of(vs2, f).id == b,
{
    assert forall|b: u64, f: EdgeKey| bs2.dom().contains(b) && #[trigger] bs2[b].edges@.contains(f) implies
        has_edge(vs2, f) && bubble_of(vs2, f).id == b by {
        lemma_digon_claim_one(vs, bs, e, vs2, bs2, b, f);
    }
}

/// After such a merge, a position of the list of a bubble that the merge
/// leaves alone is in order.
#[verifier::rlimit(40)]
#[verifier::spinoff_prover]
proof fn lemma_digon_untouched(
    vs: Map<u64, Vertex>,
    bs: Map<u64, Bubble>,
    e: EdgeKey,
    vs2: Map<u64, Vertex>,
    bs2: Map<u64, Bubble>,
    b: u64,
    i: int,
)
    requires
        digon_setting(vs, bs, e, vs2, bs2),
        bs.dom().contains(b),
        b != bubble_of(vs, e).id,
        b != bubble_of(vs, twin_of(vs, e)).id,
        b != bubble_of(vs, e.spec_next_on_vertex()).id,
        bs2[b].edges@ == bs[b].edges@,
        0 <= i < bs[b].edges@.len(),
        bubble_of(vs2, bs[b].edges@[i]).id == b,
    ensures
        boundary_ok(vs2, bs2, b, i),
{
    lemma_digon_start(vs, bs, e);
    lemma_digon_around(vs, bs, e);
    reveal(lists_follow);
    let d = vs.dom();
    let tw = twins(vs);
    let tw2 = remove_twins(vs, e);
    let t = tw(e);
    let u = e.vertex.id;
    let w = t.vertex.id;
    let en = e.spec_next_on_vertex();
    let ep = e.spec_prev_on_vertex();
    let tn = t.spec_next_on_vertex();
    let tp = t.spec_prev_on_vertex();
    let ept = tw(ep);
    let tnt = tw(tn);
    let l = bs[b].edges@;
    let f = l[i];
    assert(list_good(tw, d, l));
    assert(edge_set(d).contains(f));
    assert(l.contains(f));
    assert(bubble_of(vs, f).id == b);
    assert(f != ept && f != tnt);
    assert(f != e && f != en && f != ep && f != t && f != tn && f != tp);
    let g = tw(f);
    assert(edge_set(d).contains(g) && tw(g) == f);
    assert(g != ept && g != tnt);
    assert(g != e && g != en && g != ep && g != t && g != tn && g != tp);
    if f.vertex.id == u {
        assert(f == e || f == en || f == ep);
    }
    if f.vertex.id == w {
        assert(f == t || f == tn || f == tp);
    }
    if g.vertex.id == u {
        assert(g == e || g == en || g == ep);
    }
    if g.vertex.id == w {
        assert(g == t || g == tn || g == tp);
    }
    assert(tw2(f) == g && tw2(g) == f);
    assert(vs2.dom() == d.remove(u).remove(w));
    assert(twins_are(vs2, tw2));
    assert(has_edge(vs2, f) && has_edge(vs2, g));
    assert(twin_of(vs2, f) == g);
    assert(twin_of(vs2, g) == f);
    assert(next_by(tw, l[i]) == l[(i + 1) % (l.len() as int)]);
    assert(next_edge(vs2, f) == next_by(tw, f));
}

/// After such a merge, every position of the list of bubble `b` is in
/// order.
#[verifier::rlimit(40)]
#[verifier::spinoff_prover]
proof fn lemma_digon_boundary_one(
    vs: Map<u64, Vertex>,
    bs: Map<u64, Bubble>,
    e: EdgeKey,
    vs2: Map<u64, Vertex>,
    bs2: Map<u64, Bubble>,
    b: u64,
)
    requires
        digon_setting(vs, bs, e, vs2, bs2),
        bs2.dom().contains(b),
        forall|b2: u64, f: EdgeKey| bs2.dom().contains(b2) && #[trigger] bs2[b2].edges@.contains(f) ==>
            has_edge(vs2, f) && bubble_of(vs2, f).id == b2,
    ensures
        forall|i: int| 0 <= i < bs2[b].edges@.len() ==> #[trigger] boundary_ok(vs2, bs2, b, i),
{
    lemma_digon_start(vs, bs, e);
    lemma_digon_top(vs, bs, e);
    lemma_digon_side(vs, bs, e);
    lemma_digon_labels(vs, bs, e, vs2, bs2);
    let t = twin_of(vs, e);
    let d2 = vs.dom().remove(e.vertex.id).remove(t.vertex.id);
    let tw2 = remove_twins(vs, e);
    let top = bubble_of(vs, e).id;
    let bottom = bubble_of(vs, t).id;
    let right = bubble_of(vs, e.spec_next_on_vertex()).id;
    assert(vs2.dom() == d2 && twins_are(vs2, tw2));
    assert(bs2.dom() == bs.dom().remove(bottom));
    assert(bs.dom().contains(b));
    if b == right {
        lemma_orbit_list_ok(vs2, bs2, tw2, twin_of(vs, e.spec_prev_on_vertex()), (bs[right].edges@.len() - 2) as nat, b);
    } else if b == top {
        lemma_orbit_list_ok(vs2, bs2, tw2, twin_of(vs, t.spec_next_on_vertex()), (bs[bottom].edges@.len() - 2) as nat, b);
    } else {
        assert(bs2[b].edges@ == bs[b].edges@);
        assert forall|i: int| 0 <= i < bs2[b].edges@.len() implies #[trigger] boundary_ok(vs2, bs2, b, i) by {
            assert(bs2[b].edges@.contains(bs[b].edges@[i]));
            lemma_digon_untouched(vs, bs, e, vs2, bs2, b, i);
        }
    }
}

/// After such a merge, the edge `f` is in some list.
#[verifier::rlimit(60)]
#[verifier::spinoff_prover]
proof fn lemma_digon_listed_one(vs: Map<u64, Vertex>, bs: Map<u64, Bubble>, e: EdgeKey, vs2: Map<u64, Vertex>, bs2: Map<u64, Bubble>, f: EdgeKey)
    requires
        digon_setting(vs, bs, e, vs2, bs2),
        has_edge(vs2, f),
    ensures
        listed(bs2, f),
{
    lemma_digon_around(vs, bs, e);
    lemma_digon_top(vs, bs, e);
    lemma_digon_side(vs, bs, e);
    lemma_digon_labels(vs, bs, e, vs2, bs2);
    reveal(lists_follow);
    let d = vs.dom();
    let tw = twins(vs);
    let tw2 = remove_twins(vs, e);
    let t = tw(e);
    let u = e.vertex.id;
    let w = t.vertex.id;
    let en = e.spec_next_on_vertex();
    let ep = e.spec_prev_on_vertex();
    let tn = t.spec_next_on_vertex();
    let tp = t.spec_prev_on_vertex();
    let ot = orbit_by(tw2, d, tw(tn));
    let or = orbit_by(tw2, d, tw(ep));
    let top = bubble_of(vs, e).id;
    let bottom = bubble_of(vs, t).id;
    let right = bubble_of(vs, en).id;
    assert(vs2.dom() == d.remove(u).remove(w));
    assert(bs2.dom() == bs.dom().remove(bottom));
    assert(has_edge(vs, f));
    assert(f.vertex.id != u && f.vertex.id != w);
    assert(f != e && f != en && f != ep && f != t && f != tn && f != tp);
    let bf = bubble_of(vs, f).id;
    assert(bs.dom().contains(bf) && bs[bf].edges@.contains(f));
    if bf == top {
        lemma_digon_pair(vs, bs, e, f);
    }
    let b: u64 = if bf == bottom { top } else { bf };
    if bf == right {
        assert(or.contains(f));
    } else if bf == bottom {
        assert(ot.contains(f));
    } else {
        assert(bs2[bf].edges@ == bs[bf].edges@);
    }
    assert(bs2.dom().contains(b));
    assert(bs2[b].edges@.contains(f));
    let l = bs2[b].edges@;
    let i = choose|i: int| 0 <= i < l.len() && l[i] == f;
    assert(bs2[b].edges@[i] == f);
}

/// After such a merge, the lists keep their invariants.
#[verifier::rlimit(40)]
proof fn lemma_digon_listing(vs: Map<u64, Vertex>, bs: Map<u64, Bubble>, e: EdgeKey, vs2: Map<u64, Vertex>, bs2: Map<u64, Bubble>)
    requires
        digon_setting(vs, bs, e, vs2, bs2),
        exists|o: u64| sole_open_air(bs2, o),
    ensures
        listing_ok(vs2, bs2),
{
    let d = vs.dom();
    lemma_digon_claims(vs, bs, e, vs2, bs2);
    assert forall|b: u64, i: int| bs2.dom().contains(b) && 0 <= i < bs2[b].edges@.len() implies
        #[trigger] boundary_ok(vs2, bs2, b, i) by {
        lemma_digon_boundary_one(vs, bs, e, vs2, bs2, b);
    }
    assert forall|f: EdgeKey| #[trigger] has_edge(vs2, f) implies listed(bs2, f) by {
        lemma_digon_listed_one(vs, bs, e, vs2, bs2, f);
    }
    lemma_digon_start(vs, bs, e);
    lemma_digon_top(vs, bs, e);
    lemma_digon_side(vs, bs, e);
    lemma_digon_labels(vs, bs, e, vs2, bs2);
    reveal(lists_follow);
    let t = twin_of(vs, e);
    let d2 = d.remove(e.vertex.id).remove(t.vertex.id);
    let tw2 = remove_twins(vs, e);
    let top = bubble_of(vs, e).id;
    let bottom = bubble_of(vs, t).id;
    let right = bubble_of(vs, e.spec_next_on_vertex()).id;
    let st = twin_of(vs, t.spec_next_on_vertex());
    let sr = twin_of(vs, e.spec_prev_on_vertex());
    lemma_closes_by_unique(tw2, d2, st, (bs[bottom].edges@.len() - 2) as nat);
    lemma_closes_by_unique(tw2, d2, sr, (bs[right].edges@.len() - 2) as nat);
    assert(bs2.dom() == bs.dom().remove(bottom));
    assert forall|b: u64| #[trigger] bs2.dom().contains(b) implies bs2[b].edges@.len() > 0 by {
        assert(bs.dom().contains(b));
        assert(list_good(twins(vs), d, bs[b].edges@));
    }
    assert forall|b1: u64, i1: int, b2: u64, i2: int|
        bs2.dom().contains(b1) && 0 <= i1 < bs2[b1].edges@.len() && bs2.dom().contains(b2) && 0 <= i2 < bs2[b2].edges@.len()
        && (b1 != b2 || i1 != i2) implies #[trigger] bs2[b1].edges@[i1] != #[trigger] bs2[b2].edges@[i2] by {
        assert(boundary_ok(vs2, bs2, b1, i1) && boundary_ok(vs2, bs2, b2, i2));
        if b1 == b2 {
            assert(bs.dom().contains(b1));
            assert(list_good(twins(vs), d, bs[b1].edges@));
            assert(bs2[b1].edges@.no_duplicates());
        }
    }
}

/// After such a merge, the keys stay valid.
proof fn lemma_digon_keys_valid(vs: Map<u64, Vertex>, bs: Map<u64, Bubble>, e: EdgeKey, vs2: Map<u64, Vertex>, bs2: Map<u64, Bubble>)
    requires
        keys_valid(vs, bs),
        digon_setting(vs, bs, e, vs2, bs2),
    ensures
        keys_valid(vs2, bs2),
{
    lemma_digon_start(vs, bs, e);
    lemma_digon_claims(vs, bs, e, vs2, bs2);
    let t = twin_of(vs, e);
    let d2 = vs.dom().remove(e.vertex.id).remove(t.vertex.id);
    let tw2 = remove_twins(vs, e);
    assert(vs2.dom() == d2);
    assert(bs2.dom() == bs.dom().remove(bubble_of(vs, t).id));
    assert(twins_are(vs2, tw2));
    assert forall|k: u64| #[trigger] vs2.dom().contains(k) implies issued_key(k) by {
        assert(vs.dom().contains(k));
    }
    assert forall|k: u64| #[trigger] bs2.dom().contains(k) implies issued_key(k) by {
        assert(bs.dom().contains(k));
    }
    assert forall|f: EdgeKey| #[trigger] has_edge(vs2, f) implies
        twin_of(vs2, f).valid() && odd_version(twin_of(vs2, f).vertex.id) by {
        assert(edge_set(d2).contains(f));
        assert(edge_set(d2).contains(tw2(f)));
        assert(vs.dom().contains(tw2(f).vertex.id));
        assert(issued_key(tw2(f).vertex.id));
    }
    assert forall|b: u64, i: int| bs2.dom().contains(b) && 0 <= i < bs2[b].edges@.len() implies
        (#[trigger] bs2[b].edges@[i]).valid() && odd_version(bs2[b].edges@[i].vertex.id) by {
        let f = bs2[b].edges@[i];
        assert(bs2[b].edges@.contains(f));
        assert(has_edge(vs2, f));
        assert(vs.dom().contains(f.vertex.id));
        assert(issued_key(f.vertex.id));
    }
}

/// The merging step of the removal of a wall of a bubble with two edges,
/// on its top side, keeps the invariants of the graph: in a graph that
/// keeps them, with the wall's outer twins apart and walks that close as
/// the merge needs, the graph after the merge keeps them too, and its keys
/// stay valid.
pub proof fn law_digon_merge_keeps_sane(vs: Map<u64, Vertex>, bs: Map<u64, Bubble>, e: EdgeKey, vs2: Map<u64, Vertex>, bs2: Map<u64, Bubble>)
    requires
        keys_valid(vs, bs),
        sane(vs, bs),
        vs.dom().finite(),
        bs.dom().finite(),
        has_edge(vs, e),
        remove_case(vs, e) == 1,
        digon_apart(vs, e),
        merge_sides(vs, e),
        remove_links_ok(vs, e),
        merged(vs, bs, e, vs2, bs2),
    ensures
        sane(vs2, bs2),
        keys_valid(vs2, bs2),
{
    lemma_sane_lists_follow(vs, bs);
    assert(digon_setting(vs, bs, e, vs2, bs2));
    lemma_digon_around(vs, bs, e);
    reveal(lists_follow);
    let t = twin_of(vs, e);
    assert(has_edge(vs, t));
    assert(bs.dom().contains(bubble_of(vs, e).id) && bs.dom().contains(bubble_of(vs, t).id));
    let o = choose|o: u64| sole_open_air(bs, o);
    law_merge_keeps_counts(vs, bs, e, vs2, bs2, o);
    lemma_digon_listing(vs, bs, e, vs2, bs2);
    lemma_digon_keys_valid(vs, bs, e, vs2, bs2);
}


/// Around a wall of `e` whose bottom bubble has two edges: the wall joins
/// two different vertices, and the twins of the edge after `e` and of the
/// edge before its twin lie elsewhere and differ.
pub open spec fn lower_digon_apart(vs: Map<u64, Vertex>, e: EdgeKey) -> bool {
    let t = twin_of(vs, e);
    let ent = twin_of(vs, e.spec_next_on_vertex());
    let tpt = twin_of(vs, t.spec_prev_on_vertex());
    &&& e.vertex.id != t.vertex.id
    &&& ent.vertex.id != e.vertex.id && ent.vertex.id != t.vertex.id
    &&& tpt.vertex.id != e.vertex.id && tpt.vertex.id != t.vertex.id
    &&& ent != tpt
}

/// The setting of a proof about the removal of a wall of a bubble with two
/// edges, on its bottom side.
pub open spec fn lower_digon_fresh(vs: Map<u64, Vertex>, bs: Map<u64, Bubble>, e: EdgeKey) -> bool {
    &&& lists_follow(vs, bs)
    &&& remove_links_ok(vs, e)
    &&& has_edge(vs, e)
    &&& remove_case(vs, e) == 2
    &&& lower_digon_apart(vs, e)
    &&& merge_sides(vs, e)
}

/// A wall whose removal is not refused, in a graph that keeps its
/// invariants, whose bottom bubble has two edges and whose top bubble has
/// more, has the shape `lower_digon_apart` describes.
pub proof fn lemma_lower_digon_apart(vs: Map<u64, Vertex>, bs: Map<u64, Bubble>, e: EdgeKey)
    requires
        keys_valid(vs, bs),
        sane(vs, bs),
        has_edge(vs, e),
        !remove_blocked(vs, bs, e),
        remove_case(vs, e) == 2,
    ensures
        lower_digon_apart(vs, e),
{
    let t = twin_of(vs, e);
    let en = e.spec_next_on_vertex();
    let ep = e.spec_prev_on_vertex();
    lemma_edge_facts(vs, bs, e);
    lemma_edge_facts(vs, bs, en);
    lemma_edge_facts(vs, bs, ep);
    let tn = t.spec_next_on_vertex();
    let tp = t.spec_prev_on_vertex();
    lemma_edge_facts(vs, bs, t);
    lemma_edge_facts(vs, bs, tn);
    lemma_edge_facts(vs, bs, tp);
    assert(en.spec_prev_on_vertex() == e && ep.spec_prev_on_vertex() == en && e.spec_prev_on_vertex() == ep);
    assert(tn.spec_prev_on_vertex() == t && tp.spec_prev_on_vertex() == tn && t.spec_prev_on_vertex() == tp);
    assert(ep.spec_next_on_vertex() == e && tp.spec_next_on_vertex() == t);
}

/// Around such a wall: the edges of its two vertices and the outer twins
/// exist, and each claims the bubble it runs along.
pub proof fn lemma_lower_digon_around(vs: Map<u64, Vertex>, bs: Map<u64, Bubble>, e: EdgeKey)
    requires
        lower_digon_fresh(vs, bs, e),
    ensures
        ({
            let t = twin_of(vs, e);
            let en = e.spec_next_on_vertex();
            let ep = e.spec_prev_on_vertex();
            let tn = t.spec_next_on_vertex();
            let tp = t.spec_prev_on_vertex();
            let ent = twin_of(vs, en);
            let tpt = twin_of(vs, tp);
            &&& has_edge(vs, t) && has_edge(vs, en) && has_edge(vs, ep) && has_edge(vs, tn) && has_edge(vs, tp)
            &&& has_edge(vs, ent) && has_edge(vs, tpt)
            &&& twin_of(vs, t) == e && twin_of(vs, ep) == tn && twin_of(vs, tn) == ep
            &&& twin_of(vs, ent) == en && twin_of(vs, tpt) == tp
            &&& bubble_of(vs, tp) == bubble_of(vs, e) && bubble_of(vs, ent) == bubble_of(vs, e)
            &&& bubble_of(vs, ep) == bubble_of(vs, t)
            &&& bubble_of(vs, tpt) == bubble_of(vs, en) && bubble_of(vs, tn) == bubble_of(vs, en)
            &&& next_by(twins(vs), ent) == e && next_by(twins(vs), e) == tp
            &&& next_by(twins(vs), tpt) == tn && next_by(twins(vs), tn) == en
            &&& next_by(twins(vs), t) == ep && next_by(twins(vs), ep) == t
        }),
{
    reveal(lists_follow);
    let d = vs.dom();
    let tw = twins(vs);
    let t = tw(e);
    let en = e.spec_next_on_vertex();
    let ep = e.spec_prev_on_vertex();
    assert(edge_set(d).contains(e) && edge_set(d).contains(en) && edge_set(d).contains(ep));
    assert(edge_set(d).contains(t));
    let tn = t.spec_next_on_vertex();
    let tp = t.spec_prev_on_vertex();
    assert(edge_set(d).contains(tn) && edge_set(d).contains(tp));
    let ent = tw(en);
    let tpt = tw(tp);
    assert(edge_set(d).contains(ent) && edge_set(d).contains(tpt));
    assert(tw(ent) == en && tw(tpt) == tp && tw(t) == e && tw(ep) == tn && tw(tn) == ep);
    lemma_next_same_bubble(vs, bs, ent);
    lemma_next_same_bubble(vs, bs, e);
    lemma_next_same_bubble(vs, bs, tpt);
    lemma_next_same_bubble(vs, bs, tn);
    lemma_next_same_bubble(vs, bs, t);
}

/// The twins before and after such a removal pair up the edges, the new
/// ones being the old ones with the two outer twins linked.
pub proof fn lemma_lower_digon_start(vs: Map<u64, Vertex>, bs: Map<u64, Bubble>, e: EdgeKey)
    requires
        lower_digon_fresh(vs, bs, e),
    ensures
        pairs_up(twins(vs), vs.dom()),
        remove_twins(vs, e) == linked(twins(vs), twin_of(vs, e.spec_next_on_vertex()),
            twin_of(vs, twin_of(vs, e).spec_prev_on_vertex())),
        pairs_up(remove_twins(vs, e), vs.dom().remove(e.vertex.id).remove(twin_of(vs, e).vertex.id)),
{
    reveal(lists_follow);
    lemma_lower_digon_around(vs, bs, e);
    let d = vs.dom();
    let tw = twins(vs);
    let t = tw(e);
    let en = e.spec_next_on_vertex();
    let ep = e.spec_prev_on_vertex();
    let tn = t.spec_next_on_vertex();
    let tp = t.spec_prev_on_vertex();
    let ent = tw(en);
    let tpt = tw(tp);
    let d2 = d.remove(e.vertex.id).remove(t.vertex.id);
    let tw2 = remove_twins(vs, e);
    assert(tw2 == linked(tw, ent, tpt)) by {
        reveal(remove_twins);
    }
    assert forall|f: EdgeKey| #[trigger] edge_set(d2).contains(f) implies edge_set(d2).contains(tw2(f)) && tw2(tw2(f)) == f by {
        assert(edge_set(d).contains(f));
        if f != ent && f != tpt {
            let g = tw(f);
            assert(edge_set(d).contains(g) && tw(g) == f);
            if g.vertex.id == e.vertex.id {
                assert(g == e || g == en || g == ep);
            }
            if g.vertex.id == t.vertex.id {
                assert(g == t || g == tn || g == tp);
            }
            assert(g != ent && g != tpt);
        }
    }
}

/// After such a removal, the walk from the twin of the edge before the
/// wall's twin goes round the bubble at the wall's two ends without the two
/// edges there.
#[verifier::rlimit(40)]
proof fn lemma_lower_digon_ends(vs: Map<u64, Vertex>, bs: Map<u64, Bubble>, e: EdgeKey)
    requires
        lower_digon_fresh(vs, bs, e),
    ensures
        ({
            let t = twin_of(vs, e);
            let d2 = vs.dom().remove(e.vertex.id).remove(t.vertex.id);
            let tw2 = remove_twins(vs, e);
            let en = e.spec_next_on_vertex();
            let s = twin_of(vs, t.spec_prev_on_vertex());
            let l = bs[bubble_of(vs, en).id].edges@;
            &&& closes_by_at(tw2, d2, s, (l.len() - 2) as nat)
            &&& orbit_by(tw2, vs.dom(), s) == orbit_by(tw2, d2, s)
            &&& orbit_by(tw2, d2, s).no_duplicates()
            &&& forall|f: EdgeKey| #![trigger orbit_by(tw2, d2, s).contains(f)] #![trigger l.contains(f)]
                orbit_by(tw2, d2, s).contains(f) <==> (l.contains(f) && f != t.spec_next_on_vertex() && f != en)
        }),
{
    lemma_lower_digon_start(vs, bs, e);
    lemma_lower_digon_around(vs, bs, e);
    reveal(lists_follow);
    let d = vs.dom();
    let tw = twins(vs);
    let t = tw(e);
    let u = e.vertex.id;
    let w = t.vertex.id;
    let d2 = d.remove(u).remove(w);
    let tw2 = remove_twins(vs, e);
    let en = e.spec_next_on_vertex();
    let ep = e.spec_prev_on_vertex();
    let tn = t.spec_next_on_vertex();
    let tp = t.spec_prev_on_vertex();
    let ent = tw(en);
    let tpt = tw(tp);
    let b = bubble_of(vs, en).id;
    let l = bs[b].edges@;
    assert(bs.dom().contains(b));
    assert(list_good(tw, d, l));
    assert(l.contains(tpt));
    let n = l.len() as int;
    let a = choose|i: int| 0 <= i < n && l[i] == tpt;
    lemma_wrap(a + 1, n);
    lemma_wrap(a + 2, n);
    lemma_wrap((a + 1) % n + 1, n);
    assert(next_by(tw, l[a]) == l[(a + 1) % n]);
    assert(l[(a + 1) % n] == tn);
    assert(next_by(tw, l[(a + 1) % n]) == l[((a + 1) % n + 1) % n]);
    assert(l[(a + 2) % n] == en);
    assert(n >= 3) by {
        if n == 1 {
            assert(l[(a + 1) % n] == l[a]);
        } else if n == 2 {
            assert(l[(a + 2) % n] == l[a]);
        }
    }
    assert forall|i: int| 0 <= i < n && i != (a + 1) % n && i != (a + 2) % n implies edge_set(d2).contains(#[trigger] l[i]) by {
        let f = l[i];
        assert(l.contains(f));
        assert(bubble_of(vs, f).id == b);
        assert(edge_set(d).contains(f));
        assert(f != en && f != tn);
        assert(f != e && f != t && f != ep && f != tp);
        if f.vertex.id == u {
            assert(f == e || f == en || f == ep);
        }
        if f.vertex.id == w {
            assert(f == t || f == tn || f == tp);
        }
    }
    assert forall|i: int| 0 <= i < n && i != a && i != (a + 1) % n && i != (a + 2) % n
        implies tw2(#[trigger] l[i]) == tw(l[i]) by {
        let f = l[i];
        assert(l.contains(f));
        assert(bubble_of(vs, f).id == b);
        assert(f != ent && f != tpt);
    }
    assert(next_by(tw2, l[a]) == next_by(tw, l[(a + 2) % n]));
    assert(closes_by(tw2, d, tpt));
    lemma_shrink_two(tw, tw2, d2, d, l, a);
    lemma_orbit_wider(tw2, d2, d, tpt, (n - 2) as nat);
}

/// After such a removal, the walk from the twin of the edge after the wall
/// goes round the top bubble without the wall and the edge after it.
#[verifier::rlimit(40)]
proof fn lemma_lower_digon_near(vs: Map<u64, Vertex>, bs: Map<u64, Bubble>, e: EdgeKey)
    requires
        lower_digon_fresh(vs, bs, e),
    ensures
        ({
            let t = twin_of(vs, e);
            let d2 = vs.dom().remove(e.vertex.id).remove(t.vertex.id);
            let tw2 = remove_twins(vs, e);
            let s = twin_of(vs, e.spec_next_on_vertex());
            let l = bs[bubble_of(vs, e).id].edges@;
            &&& closes_by_at(tw2, d2, s, (l.len() - 2) as nat)
            &&& orbit_by(tw2, vs.dom(), s) == orbit_by(tw2, d2, s)
            &&& orbit_by(tw2, d2, s).no_duplicates()
            &&& forall|f: EdgeKey| #![trigger orbit_by(tw2, d2, s).contains(f)] #![trigger l.contains(f)]
                orbit_by(tw2, d2, s).contains(f) <==> (l.contains(f) && f != e && f != t.spec_prev_on_vertex())
        }),
{
    lemma_lower_digon_start(vs, bs, e);
    lemma_lower_digon_around(vs, bs, e);
    reveal(lists_follow);
    let d = vs.dom();
    let tw = twins(vs);
    let t = tw(e);
    let u = e.vertex.id;
    let w = t.vertex.id;
    let d2 = d.remove(u).remove(w);
    let tw2 = remove_twins(vs, e);
    let en = e.spec_next_on_vertex();
    let ep = e.spec_prev_on_vertex();
    let tn = t.spec_next_on_vertex();
    let tp = t.spec_prev_on_vertex();
    let ent = tw(en);
    let tpt = tw(tp);
    let b = bubble_of(vs, e).id;
    let l = bs[b].edges@;
    assert(bs.dom().contains(b));
    assert(list_good(tw, d, l));
    assert(l.contains(ent));
    let n = l.len() as int;
    let a = choose|i: int| 0 <= i < n && l[i] == ent;
    lemma_wrap(a + 1, n);
    lemma_wrap(a + 2, n);
    lemma_wrap((a + 1) % n + 1, n);
    assert(next_by(tw, l[a]) == l[(a + 1) % n]);
    assert(l[(a + 1) % n] == e);
    assert(next_by(tw, l[(a + 1) % n]) == l[((a + 1) % n + 1) % n]);
    assert(l[(a + 2) % n] == tp);
    assert(n >= 3) by {
        if n == 1 {
            assert(l[(a + 1) % n] == l[a]);
        } else if n == 2 {
            assert(l[(a + 2) % n] == l[a]);
        }
    }
    assert forall|i: int| 0 <= i < n && i != (a + 1) % n && i != (a + 2) % n implies edge_set(d2).contains(#[trigger] l[i]) by {
        let f = l[i];
        assert(l.contains(f));
        assert(bubble_of(vs, f).id == b);
        assert(edge_set(d).contains(f));
        assert(f != e && f != tp);
        assert(f != t && f != en && f != ep && f != tn);
        if f.vertex.id == u {
            assert(f == e || f == en || f == ep);
        }
        if f.vertex.id == w {
            assert(f == t || f == tn || f == tp);
        }
    }
    assert forall|i: int| 0 <= i < n && i != a && i != (a + 1) % n && i != (a + 2) % n
        implies tw2(#[trigger] l[i]) == tw(l[i]) by {
        let f = l[i];
        assert(l.contains(f));
        assert(bubble_of(vs, f).id == b);
        assert(f != ent && f != tpt);
    }
    assert(next_by(tw2, l[a]) == next_by(tw, l[(a + 2) % n]));
    assert(closes_by(tw2, d, ent));
    lemma_shrink_two(tw, tw2, d2, d, l, a);
    lemma_orbit_wider(tw2, d2, d, ent, (n - 2) as nat);
}

/// The bottom bubble of such a wall has just the wall's twin and the edge
/// before the wall.
proof fn lemma_lower_digon_pair(vs: Map<u64, Vertex>, bs: Map<u64, Bubble>, e: EdgeKey, f: EdgeKey)
    requires
        lower_digon_fresh(vs, bs, e),
        bs[bubble_of(vs, twin_of(vs, e)).id].edges@.contains(f),
    ensures
        f == twin_of(vs, e) || f == e.spec_prev_on_vertex(),
{
    lemma_lower_digon_around(vs, bs, e);
    reveal(lists_follow);
    let d = vs.dom();
    let tw = twins(vs);
    let t = tw(e);
    let ep = e.spec_prev_on_vertex();
    let b = bubble_of(vs, t).id;
    let l = bs[b].edges@;
    assert(bs.dom().contains(b));
    assert(list_good(tw, d, l));
    assert(l.contains(t));
    let n = l.len() as int;
    let p = choose|i: int| 0 <= i < n && l[i] == t;
    let q = choose|i: int| 0 <= i < n && l[i] == f;
    lemma_wrap(p + 1, n);
    lemma_wrap((p + 1) % n + 1, n);
    assert(next_by(tw, l[p]) == l[(p + 1) % n]);
    assert(l[(p + 1) % n] == ep);
    assert(next_by(tw, l[(p + 1) % n]) == l[((p + 1) % n + 1) % n]);
    assert(l[((p + 1) % n + 1) % n] == t);
    assert(((p + 1) % n + 1) % n == p);
    assert(q == p || q == (p + 1) % n);
}

/// After such a removal, the bubble each edge claims and the list of each
/// bubble: the top bubble takes the walk round the bubble at the wall's
/// ends, that bubble the walk round the top one, and everything else stays.
proof fn lemma_lower_digon_labels(vs: Map<u64, Vertex>, bs: Map<u64, Bubble>, e: EdgeKey, vs2: Map<u64, Vertex>, bs2: Map<u64, Bubble>)
    requires
        lower_digon_fresh(vs, bs, e),
        merged(vs, bs, e, vs2, bs2),
    ensures
        ({
            let t = twin_of(vs, e);
            let d = vs.dom();
            let tw2 = remove_twins(vs, e);
            let ot = orbit_by(tw2, d, twin_of(vs, t.spec_prev_on_vertex()));
            let or = orbit_by(tw2, d, twin_of(vs, e.spec_next_on_vertex()));
            let top = bubble_of(vs, e);
            let right = bubble_of(vs, e.spec_next_on_vertex());
            &&& forall|f: EdgeKey| #[trigger] has_edge(vs2, f) ==> bubble_of(vs2, f) == (
                if or.contains(f) { right } else if ot.contains(f) { top } else { bubble_of(vs, f) })
            &&& forall|b: u64| #[trigger] bs2.dom().contains(b) ==> bs2[b].edges@ == (
                if b == right.id { or } else if b == top.id { ot } else { bs[b].edges@ })
        }),
{
    let t = twin_of(vs, e);
    let d = vs.dom();
    let tw2 = remove_twins(vs, e);
    let ot = orbit_by(tw2, d, twin_of(vs, t.spec_prev_on_vertex()));
    let or = orbit_by(tw2, d, twin_of(vs, e.spec_next_on_vertex()));
    let top = bubble_of(vs, e);
    let right = bubble_of(vs, e.spec_next_on_vertex());
    let chain = remove_chain(vs, e);
    assert(chain =~= seq![(top, ot), (right, or)]);
    reveal_with_fuel(chain_label, 3);
    reveal_with_fuel(chain_list, 3);
    assert(chain.drop_last() =~= seq![(top, ot)]);
    assert(chain.drop_last().drop_last() =~= Seq::<(BubbleKey, Seq<EdgeKey>)>::empty());
    assert(top.id != right.id);
    assert forall|b: u64| #[trigger] bs2.dom().contains(b) implies bs2[b].edges@ == (
        if b == right.id { or } else if b == top.id { ot } else { bs[b].edges@ }) by {
        assert(bs2[b].edges@ == chain_list(chain, b, bs[b].edges@));
    }
}

/// The setting of the proof that such a removal's merge keeps the
/// invariants.
pub open spec fn lower_digon_setting(vs: Map<u64, Vertex>, bs: Map<u64, Bubble>, e: EdgeKey, vs2: Map<u64, Vertex>, bs2: Map<u64, Bubble>) -> bool {
    &&& sane(vs, bs)
    &&& lower_digon_fresh(vs, bs, e)
    &&& merged(vs, bs, e, vs2, bs2)
}

/// After such a merge, an edge of the list of bubble `b` is an edge of the
/// graph and claims `b`.
#[verifier::rlimit(60)]
#[verifier::spinoff_prover]
proof fn lemma_lower_digon_claim_one(
    vs: Map<u64, Vertex>,
    bs: Map<u64, Bubble>,
    e: EdgeKey,
    vs2: Map<u64, Vertex>,
    bs2: Map<u64, Bubble>,
    b: u64,
    f: EdgeKey,
)
    requires
        lower_digon_setting(vs, bs, e, vs2, bs2),
        bs2.dom().contains(b),
        bs2[b].edges@.contains(f),
    ensures
        has_edge(vs2, f),
        bubble_of(vs2, f).id == b,
{
    lemma_lower_digon_around(vs, bs, e);
    lemma_lower_digon_ends(vs, bs, e);
    lemma_lower_digon_near(vs, bs, e);
    lemma_lower_digon_labels(vs, bs, e, vs2, bs2);
    reveal(lists_follow);
    let d = vs.dom();
    let tw = twins(vs);
    let tw2 = remove_twins(vs, e);
    let t = tw(e);
    let u = e.vertex.id;
    let w = t.vertex.id;
    let en = e.spec_next_on_vertex();
    let ep = e.spec_prev_on_vertex();
    let tn = t.spec_next_on_vertex();
    let tp = t.spec_prev_on_vertex();
    let ot = orbit_by(tw2, d, tw(tp));
    let or = orbit_by(tw2, d, tw(en));
    let top = bubble_of(vs, e).id;
    let bottom = bubble_of(vs, t).id;
    let right = bubble_of(vs, en).id;
    let lt = bs[top].edges@;
    let lr = bs[right].edges@;
    assert(bs2.dom() == bs.dom().remove(bottom));
    assert(vs2.dom() == d.remove(u).remove(w));
    assert(bs.dom().contains(b));
    let l = bs[b].edges@;
    let lo: Seq<EdgeKey> = if b == right {
        lt
    } else if b == top {
        lr
    } else {
        l
    };
    if b == right {
        assert(or.contains(f));
        assert(lt.contains(f) && f != e && f != tp);
        assert(bubble_of(vs, f).id == top);
    } else if b == top {
        assert(ot.contains(f));
        assert(lr.contains(f) && f != tn && f != en);
        assert(bubble_of(vs, f).id == right);
        assert(!lt.contains(f));
        assert(!or.contains(f));
    } else {
        assert(l.contains(f));
        assert(bubble_of(vs, f).id == b);
        assert(!lr.contains(f) && !lt.contains(f));
        assert(!or.contains(f) && !ot.contains(f));
    }
    assert(lo.contains(f));
    let bo = bubble_of(vs, f).id;
    assert(bs.dom().contains(bo) && bs[bo].edges@ == lo);
    assert(list_good(tw, d, lo));
    let i = choose|i: int| 0 <= i < lo.len() && lo[i] == f;
    assert(edge_set(d).contains(lo[i]));
    assert(f != e && f != en && f != ep && f != t && f != tn && f != tp);
    if f.vertex.id == u {
        assert(f == e || f == en || f == ep);
    }
    if f.vertex.id == w {
        assert(f == t || f == tn || f == tp);
    }
    assert(has_edge(vs2, f));
}

/// After such a merge, each edge of each list claims the list's bubble.
proof fn lemma_lower_digon_claims(vs: Map<u64, Vertex>, bs: Map<u64, Bubble>, e: EdgeKey, vs2: Map<u64, Vertex>, bs2: Map<u64, Bubble>)
    requires
        lower_digon_setting(vs, bs, e, vs2, bs2),
    ensures
        forall|b: u64, f: EdgeKey| bs2.dom().contains(b) && #[trigger] bs2[b].edges@.contains(f) ==>
            has_edge(vs2, f) && bubble_of(vs2, f).id == b,
{
    assert forall|b: u64, f: EdgeKey| bs2.dom().contains(b) && #[trigger] bs2[b].edges@.contains(f) implies
        has_edge(vs2, f) && bubble_of(vs2, f).id == b by {
        lemma_lower_digon_claim_one(vs, bs, e, vs2, bs2, b, f);
    }
}

/// After such a merge, a position of the list of a bubble that the merge
/// leaves alone is in order.
#[verifier::rlimit(40)]
#[verifier::spinoff_prover]
proof fn lemma_lower_digon_untouched(
    vs: Map<u64, Vertex>,
    bs: Map<u64, Bubble>,
    e: EdgeKey,
    vs2: Map<u64, Vertex>,
    bs2: Map<u64, Bubble>,
    b: u64,
    i: int,
)
    requires
        lower_digon_setting(vs, bs, e, vs2, bs2),
        bs.dom().contains(b),
        b != bubble_of(vs, e).id,
        b != bubble_of(vs, twin_of(vs, e)).id,
        b != bubble_of(vs, e.spec_next_on_vertex()).id,
        bs2[b].edges@ == bs[b].edges@,
        0 <= i < bs[b].edges@.len(),
        bubble_of(vs2, bs[b].edges@[i]).id == b,
    ensures
        boundary_ok(vs2, bs2, b, i),
{
    lemma_lower_digon_start(vs, bs, e);
    lemma_lower_digon_around(vs, bs, e);
    reveal(lists_follow);
    let d = vs.dom();
    let tw = twins(vs);
    let tw2 = remove_twins(vs, e);
    let t = tw(e);
    let u = e.vertex.id;
    let w = t.vertex.id;
    let en = e.spec_next_on_vertex();
    let ep = e.spec_prev_on_vertex();
    let tn = t.spec_next_on_vertex();
    let tp = t.spec_prev_on_vertex();
    let ent = tw(en);
    let tpt = tw(tp);
    let l = bs[b].edges@;
    let f = l[i];
    assert(list_good(tw, d, l));
    assert(edge_set(d).contains(f));
    assert(l.contains(f));
    assert(bubble_of(vs, f).id == b);
    assert(f != ent && f != tpt);
    assert(f != e && f != en && f != ep && f != t && f != tn && f != tp);
    let g = tw(f);
    assert(edge_set(d).contains(g) && tw(g) == f);
    assert(g != ent && g != tpt);
    assert(g != e && g != en && g != ep && g != t && g != tn && g != tp);
    if f.vertex.id == u {
        assert(f == e || f == en || f == ep);
    }
    if f.vertex.id == w {
        assert(f == t || f == tn || f == tp);
    }
    if g.vertex.id == u {
        assert(g == e || g == en || g == ep);
    }
    if g.vertex.id == w {
        assert(g == t || g == tn || g == tp);
    }
    assert(tw2(f) == g && tw2(g) == f);
    assert(vs2.dom() == d.remove(u).remove(w));
    assert(twins_are(vs2, tw2));
    assert(has_edge(vs2, f) && has_edge(vs2, g));
    assert(twin_of(vs2, f) == g);
    assert(twin_of(vs2, g) == f);
    assert(next_by(tw, l[i]) == l[(i + 1) % (l.len() as int)]);
    assert(next_edge(vs2, f) == next_by(tw, f));
}

/// After such a merge, every position of the list of bubble `b` is in
/// order.
#[verifier::rlimit(40)]
#[verifier::spinoff_prover]
proof fn lemma_lower_digon_boundary_one(
    vs: Map<u64, Vertex>,
    bs: Map<u64, Bubble>,
    e: EdgeKey,
    vs2: Map<u64, Vertex>,
    bs2: Map<u64, Bubble>,
    b: u64,
)
    requires
        lower_digon_setting(vs, bs, e, vs2, bs2),
        bs2.dom().contains(b),
        forall|b2: u64, f: EdgeKey| bs2.dom().contains(b2) && #[trigger] bs2[b2].edges@.contains(f) ==>
            has_edge(vs2, f) && bubble_of(vs2, f).id == b2,
    ensures
        forall|i: int| 0 <= i < bs2[b].edges@.len() ==> #[trigger] boundary_ok(vs2, bs2, b, i),
{
    lemma_lower_digon_start(vs, bs, e);
    lemma_lower_digon_ends(vs, bs, e);
    lemma_lower_digon_near(vs, bs, e);
    lemma_lower_digon_labels(vs, bs, e, vs2, bs2);
    let t = twin_of(vs, e);
    let d2 = vs.dom().remove(e.vertex.id).remove(t.vertex.id);
    let tw2 = remove_twins(vs, e);
    let top = bubble_of(vs, e).id;
    let bottom = bubble_of(vs, t).id;
    let right = bubble_of(vs, e.spec_next_on_vertex()).id;
    assert(vs2.dom() == d2 && twins_are(vs2, tw2));
    assert(bs2.dom() == bs.dom().remove(bottom));
    assert(bs.dom().contains(b));
    if b == right {
        lemma_orbit_list_ok(vs2, bs2, tw2, twin_of(vs, e.spec_next_on_vertex()), (bs[top].edges@.len() - 2) as nat, b);
    } else if b == top {
        lemma_orbit_list_ok(vs2, bs2, tw2, twin_of(vs, t.spec_prev_on_vertex()), (bs[right].edges@.len() - 2) as nat, b);
    } else {
        assert(bs2[b].edges@ == bs[b].edges@);
        assert forall|i: int| 0 <= i < bs2[b].edges@.len() implies #[trigger] boundary_ok(vs2, bs2, b, i) by {
            assert(bs2[b].edges@.contains(bs[b].edges@[i]));
            lemma_lower_digon_untouched(vs, bs, e, vs2, bs2, b, i);
        }
    }
}

/// After such a merge, the edge `f` is in some list.
#[verifier::rlimit(60)]
#[verifier::spinoff_prover]
proof fn lemma_lower_digon_listed_one(vs: Map<u64, Vertex>, bs: Map<u64, Bubble>, e: EdgeKey, vs2: Map<u64, Vertex>, bs2: Map<u64, Bubble>, f: EdgeKey)
    requires
        lower_digon_setting(vs, bs, e, vs2, bs2),
        has_edge(vs2, f),
    ensures
        listed(bs2, f),
{
    lemma_lower_digon_around(vs, bs, e);
    lemma_lower_digon_ends(vs, bs, e);
    lemma_lower_digon_near(vs, bs, e);
    lemma_lower_digon_labels(vs, bs, e, vs2, bs2);
    reveal(lists_follow);
    let d = vs.dom();
    let tw = twins(vs);
    let tw2 = remove_twins(vs, e);
    let t = tw(e);
    let u = e.vertex.id;
    let w = t.vertex.id;
    let en = e.spec_next_on_vertex();
    let ep = e.spec_prev_on_vertex();
    let tn = t.spec_next_on_vertex();
    let tp = t.spec_prev_on_vertex();
    let ot = orbit_by(tw2, d, tw(tp));
    let or = orbit_by(tw2, d, tw(en));
    let top = bubble_of(vs, e).id;
    let bottom = bubble_of(vs, t).id;
    let right = bubble_of(vs, en).id;
    assert(vs2.dom() == d.remove(u).remove(w));
    assert(bs2.dom() == bs.dom().remove(bottom));
    assert(has_edge(vs, f));
    assert(f.vertex.id != u && f.vertex.id != w);
    assert(f != e && f != en && f != ep && f != t && f != tn && f != tp);
    let bf = bubble_of(vs, f).id;
    assert(bs.dom().contains(bf) && bs[bf].edges@.contains(f));
    if bf == bottom {
        lemma_lower_digon_pair(vs, bs, e, f);
    }
    let b: u64 = if bf == top { right } else if bf == right { top } else { bf };
    if bf == top {
        assert(or.contains(f));
    } else if bf == right {
        assert(ot.contains(f));
    } else {
        assert(bs2[bf].edges@ == bs[bf].edges@);
    }
    assert(bs2.dom().contains(b));
    assert(bs2[b].edges@.contains(f));
    let l = bs2[b].edges@;
    let i = choose|i: int| 0 <= i < l.len() && l[i] == f;
    assert(bs2[b].edges@[i] == f);
}

/// After such a merge, the lists keep their invariants.
#[verifier::rlimit(40)]
proof fn lemma_lower_digon_listing(vs: Map<u64, Vertex>, bs: Map<u64, Bubble>, e: EdgeKey, vs2: Map<u64, Vertex>, bs2: Map<u64, Bubble>)
    requires
        lower_digon_setting(vs, bs, e, vs2, bs2),
        exists|o: u64| sole_open_air(bs2, o),
    ensures
        listing_ok(vs2, bs2),
{
    let d = vs.dom();
    lemma_lower_digon_claims(vs, bs, e, vs2, bs2);
    assert forall|b: u64, i: int| bs2.dom().contains(b) && 0 <= i < bs2[b].edges@.len() implies
        #[trigger] boundary_ok(vs2, bs2, b, i) by {
        lemma_lower_digon_boundary_one(vs, bs, e, vs2, bs2, b);
    }
    assert forall|f: EdgeKey| #[trigger] has_edge(vs2, f) implies listed(bs2, f) by {
        lemma_lower_digon_listed_one(vs, bs, e, vs2, bs2, f);
    }
    lemma_lower_digon_start(vs, bs, e);
    lemma_lower_digon_ends(vs, bs, e);
    lemma_lower_digon_near(vs, bs, e);
    lemma_lower_digon_labels(vs, bs, e, vs2, bs2);
    reveal(lists_follow);
    let t = twin_of(vs, e);
    let d2 = d.remove(e.vertex.id).remove(t.vertex.id);
    let tw2 = remove_twins(vs, e);
    let top = bubble_of(vs, e).id;
    let bottom = bubble_of(vs, t).id;
    let right = bubble_of(vs, e.spec_next_on_vertex()).id;
    let st = twin_of(vs, t.spec_prev_on_vertex());
    let sr = twin_of(vs, e.spec_next_on_vertex());
    lemma_closes_by_unique(tw2, d2, st, (bs[right].edges@.len() - 2) as nat);
    lemma_closes_by_unique(tw2, d2, sr, (bs[top].edges@.len() - 2) as nat);
    assert(bs2.dom() == bs.dom().remove(bottom));
    assert forall|b: u64| #[trigger] bs2.dom().contains(b) implies bs2[b].edges@.len() > 0 by {
        assert(bs.dom().contains(b));
        assert(list_good(twins(vs), d, bs[b].edges@));
    }
    assert forall|b1: u64, i1: int, b2: u64, i2: int|
        bs2.dom().contains(b1) && 0 <= i1 < bs2[b1].edges@.len() && bs2.dom().contains(b2) && 0 <= i2 < bs2[b2].edges@.len()
        && (b1 != b2 || i1 != i2) implies #[trigger] bs2[b1].edges@[i1] != #[trigger] bs2[b2].edges@[i2] by {
        assert(boundary_ok(vs2, bs2, b1, i1) && boundary_ok(vs2, bs2, b2, i2));
        if b1 == b2 {
            assert(bs.dom().contains(b1));
            assert(list_good(twins(vs), d, bs[b1].edges@));
            assert(bs2[b1].edges@.no_duplicates());
        }
    }
}

/// After such a merge, the keys stay valid.
proof fn lemma_lower_digon_keys_valid(vs: Map<u64, Vertex>, bs: Map<u64, Bubble>, e: EdgeKey, vs2: Map<u64, Vertex>, bs2: Map<u64, Bubble>)
    requires
        keys_valid(vs, bs),
        lower_digon_setting(vs, bs, e, vs2, bs2),
    ensures
        keys_valid(vs2, bs2),
{
    lemma_lower_digon_start(vs, bs, e);
    lemma_lower_digon_claims(vs, bs, e, vs2, bs2);
    let t = twin_of(vs, e);
    let d2 = vs.dom().remove(e.vertex.id).remove(t.vertex.id);
    let tw2 = remove_twins(vs, e);
    assert(vs2.dom() == d2);
    assert(bs2.dom() == bs.dom().remove(bubble_of(vs, t).id));
    assert(twins_are(vs2, tw2));
    assert forall|k: u64| #[trigger] vs2.dom().contains(k) implies issued_key(k) by {
        assert(vs.dom().contains(k));
    }
    assert forall|k: u64| #[trigger] bs2.dom().contains(k) implies issued_key(k) by {
        assert(bs.dom().contains(k));
    }
    assert forall|f: EdgeKey| #[trigger] has_edge(vs2, f) implies
        twin_of(vs2, f).valid() && odd_version(twin_of(vs2, f).vertex.id) by {
        assert(edge_set(d2).contains(f));
        assert(edge_set(d2).contains(tw2(f)));
        assert(vs.dom().contains(tw2(f).vertex.id));
        assert(issued_key(tw2(f).vertex.id));
    }
    assert forall|b: u64, i: int| bs2.dom().contains(b) && 0 <= i < bs2[b].edges@.len() implies
        (#[trigger] bs2[b].edges@[i]).valid() && odd_version(bs2[b].edges@[i].vertex.id) by {
        let f = bs2[b].edges@[i];
        assert(bs2[b].edges@.contains(f));
        assert(has_edge(vs2, f));
        assert(vs.dom().contains(f.vertex.id));
        assert(issued_key(f.vertex.id));
    }
}

/// The merging step of the removal of a wall of a bubble with two edges,
/// on its bottom side, keeps the invariants of the graph: in a graph that
/// keeps them, with the wall's outer twins apart and walks that close as
/// the merge needs, the graph after the merge keeps them too, and its keys
/// stay valid.
pub proof fn law_lower_digon_merge_keeps_sane(vs: Map<u64, Vertex>, bs: Map<u64, Bubble>, e: EdgeKey, vs2: Map<u64, Vertex>, bs2: Map<u64, Bubble>)
    requires
        keys_valid(vs, bs),
        sane(vs, bs),
        vs.dom().finite(),
        bs.dom().finite(),
        has_edge(vs, e),
        remove_case(vs, e) == 2,
        lower_digon_apart(vs, e),
        merge_sides(vs, e),
        remove_links_ok(vs, e),
        merged(vs, bs, e, vs2, bs2),
    ensures
        sane(vs2, bs2),
        keys_valid(vs2, bs2),
{
    lemma_sane_lists_follow(vs, bs);
    assert(lower_digon_setting(vs, bs, e, vs2, bs2));
    lemma_lower_digon_around(vs, bs, e);
    reveal(lists_follow);
    let t = twin_of(vs, e);
    assert(has_edge(vs, t));
    assert(bs.dom().contains(bubble_of(vs, e).id) && bs.dom().contains(bubble_of(vs, t).id));
    let o = choose|o: u64| sole_open_air(bs, o);
    law_merge_keeps_counts(vs, bs, e, vs2, bs2, o);
    lemma_lower_digon_listing(vs, bs, e, vs2, bs2);
    lemma_lower_digon_keys_valid(vs, bs, e, vs2, bs2);
}


/// The twins after the merging step of a removal of a wall of a bubble
/// with two edges pair up the edges of the vertices without the wall's
/// two, when the wall's outer twins lie elsewhere and differ.
pub proof fn lemma_digon_pairs(vs: Map<u64, Vertex>, e: EdgeKey)
    requires
        pairs_up(twins(vs), vs.dom()),
        has_edge(vs, e),
        remove_case(vs, e) == 1 && digon_apart(vs, e) || remove_case(vs, e) == 2 && lower_digon_apart(vs, e),
    ensures
        pairs_up(remove_twins(vs, e), vs.dom().remove(e.vertex.id).remove(twin_of(vs, e).vertex.id)),
{
    let d = vs.dom();
    let tw = twins(vs);
    let t = tw(e);
    let en = e.spec_next_on_vertex();
    let ep = e.spec_prev_on_vertex();
    assert(edge_set(d).contains(e) && edge_set(d).contains(en) && edge_set(d).contains(ep));
    assert(edge_set(d).contains(t));
    let tn = t.spec_next_on_vertex();
    let tp = t.spec_prev_on_vertex();
    assert(edge_set(d).contains(tn) && edge_set(d).contains(tp));
    let ent = tw(en);
    let ept = tw(ep);
    let tnt = tw(tn);
    let tpt = tw(tp);
    assert(edge_set(d).contains(ent) && edge_set(d).contains(ept) && edge_set(d).contains(tnt) && edge_set(d).contains(tpt));
    assert(tw(ent) == en && tw(ept) == ep && tw(tnt) == tn && tw(tpt) == tp && tw(t) == e);
    let d2 = d.remove(e.vertex.id).remove(t.vertex.id);
    let tw2 = remove_twins(vs, e);
    let (a, b) = if remove_case(vs, e) == 1 { (ept, tnt) } else { (ent, tpt) };
    assert(tw2 == linked(tw, a, b)) by {
        reveal(remove_twins);
    }
    assert forall|f: EdgeKey| #[trigger] edge_set(d2).contains(f) implies edge_set(d2).contains(tw2(f)) && tw2(tw2(f)) == f by {
        assert(edge_set(d).contains(f));
        if f != a && f != b {
            let g = tw(f);
            assert(edge_set(d).contains(g) && tw(g) == f);
            if g.vertex.id == e.vertex.id {
                assert(g == e || g == en || g == ep);
            }
            if g.vertex.id == t.vertex.id {
                assert(g == t || g == tn || g == tp);
            }
            assert(g != a && g != b);
        }
    }
}

/// The merging step of a removal of a wall of a bubble with two edges can
/// link and rebubble on a graph of at most 333 vertices that keeps its
/// invariants, when the wall's outer twins lie elsewhere and differ: the
/// edges it links exist and the walks it retraces close.
pub proof fn law_digon_ready(vs: Map<u64, Vertex>, bs: Map<u64, Bubble>, e: EdgeKey)
    requires
        keys_valid(vs, bs),
        sane(vs, bs),
        vs.dom().finite(),
        3 * vs.dom().len() <= 999,
        has_edge(vs, e),
        remove_case(vs, e) == 1 && digon_apart(vs, e) || remove_case(vs, e) == 2 && lower_digon_apart(vs, e),
    ensures
        remove_links_ok(vs, e),
{
    lemma_sane_pairs(vs, bs);
    lemma_digon_pairs(vs, e);
    let d = vs.dom();
    let tw = twins(vs);
    let t = tw(e);
    assert(edge_set(d).contains(e));
    assert(edge_set(d).contains(e.spec_next_on_vertex()) && edge_set(d).contains(e.spec_prev_on_vertex()));
    assert(edge_set(d).contains(t));
    assert(edge_set(d).contains(t.spec_prev_on_vertex()) && edge_set(d).contains(t.spec_next_on_vertex()));
    let ent = tw(e.spec_next_on_vertex());
    let ept = tw(e.spec_prev_on_vertex());
    let tnt = tw(t.spec_next_on_vertex());
    let tpt = tw(t.spec_prev_on_vertex());
    assert(edge_set(d).contains(ent) && edge_set(d).contains(ept) && edge_set(d).contains(tnt) && edge_set(d).contains(tpt));
    let d2 = d.remove(e.vertex.id).remove(t.vertex.id);
    let tw2 = remove_twins(vs, e);
    lemma_edge_set_size(d);
    vstd::set_lib::lemma_len_subset(d2, d);
    if remove_case(vs, e) == 1 {
        assert(edge_set(d2).contains(ept) && edge_set(d2).contains(tnt));
        law_paired_walks_close(tw2, d2, ept);
        law_paired_walks_close(tw2, d2, tnt);
        lemma_closes_by_more(tw2, d2, d, ept);
        lemma_closes_by_more(tw2, d2, d, tnt);
    } else {
        assert(edge_set(d2).contains(ent) && edge_set(d2).contains(tpt));
        law_paired_walks_close(tw2, d2, ent);
        law_paired_walks_close(tw2, d2, tpt);
        lemma_closes_by_more(tw2, d2, d, ent);
        lemma_closes_by_more(tw2, d2, d, tpt);
    }
}

} // verus!
