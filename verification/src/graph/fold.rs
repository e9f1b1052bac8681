//! What a slide does to a wall with the same bubble on both sides: that
//! bubble loses the edges after the wall's two ends, each of the two
//! bubbles at the ends gains one edge, and every other boundary stays.
use vstd::prelude::*;
use crate::graph::bubble::{Bubble, BubbleKey};
use crate::graph::closure::{edge_set, lemma_slide_pairs, pairs_up, slide_six_distinct};
use crate::graph::edge::EdgeKey;
use crate::graph::flip::{
    follows, lemma_return_bound, lemma_follow, lemma_grow, lemma_grown_facts, lemma_orbit_list_ok, lemma_walk_shift, lemma_wrap, list_good,
    lists_follow, next_by,
};
use crate::graph::growth::{lemma_next_same_bubble, lemma_orbit_nodup, lemma_orbit_rotate, lemma_walk_add};
use crate::graph::spec::{
    boundary_ok, bubble_of, chain_label, chain_list, closes_by, closes_by_at, linked, listed, listing_ok, orbit_by,
    relinked_rebubbled, sane, slide_chain, slide_closes, slide_twins, sole_open_air, twin_of, twins, twins_are, walk_by,
};
use crate::graph::vertex::{has_edge, next_edge, Vertex};

verus! {

/// The walk behind the double shrink below, position by position.
#[verifier::rlimit(40)]
proof fn lemma_double_walk(
    tw: spec_fn(EdgeKey) -> EdgeKey,
    tw2: spec_fn(EdgeKey) -> EdgeKey,
    l: Seq<EdgeKey>,
    a: int,
    b: int,
    dd: int,
)
    requires
        4 <= l.len(),
        0 <= a < l.len(),
        0 <= b < l.len(),
        2 <= dd <= l.len() - 2,
        (a + dd) % (l.len() as int) == b,
        follows(tw, l),
        next_by(tw2, l[a]) == l[(a + 2) % (l.len() as int)],
        next_by(tw2, l[b]) == l[(b + 2) % (l.len() as int)],
        forall|i: int| 0 <= i < l.len() && i != a && i != b && i != (a + 1) % (l.len() as int)
            && i != (b + 1) % (l.len() as int) ==> tw2(#[trigger] l[i]) == tw(l[i]),
    ensures
        forall|k: nat| 1 <= k <= dd - 1 ==> #[trigger] walk_by(tw2, l[a], k) == l[(a + 1 + k) % (l.len() as int)],
        forall|r: nat| r <= l.len() - dd - 2 ==>
            #[trigger] walk_by(tw2, l[a], (dd + r) as nat) == l[(a + 2 + dd + r) % (l.len() as int)],
{
    let n = l.len() as int;
    let s = l[a];
    let ja = (a + 2) % n;
    let jb = (b + 2) % n;
    lemma_wrap(a + 1, n);
    lemma_wrap(b + 1, n);
    lemma_wrap(a + 2, n);
    lemma_wrap(b + 2, n);
    assert forall|m: int| 0 <= m < dd - 2 implies #[trigger] next_by(tw2, l[(ja + m) % n]) == l[(ja + m + 1) % n] by {
        lemma_wrap(ja + m, n);
        lemma_wrap(a + 2 + m, n);
        let i = (ja + m) % n;
        assert(i == (a + 2 + m) % n);
        lemma_wrap(a + dd, n);
        assert(i != a && i != (a + 1) % n && i != b && i != (b + 1) % n);
        assert(next_by(tw, l[i]) == l[(i + 1) % n]);
        lemma_wrap(i + 1, n);
        lemma_wrap(ja + m + 1, n);
    }
    assert forall|m: int| 0 <= m < n - dd - 2 implies #[trigger] next_by(tw2, l[(jb + m) % n]) == l[(jb + m + 1) % n] by {
        lemma_wrap(jb + m, n);
        lemma_wrap(b + 2 + m, n);
        lemma_wrap(a + dd + 2 + m, n);
        lemma_wrap(a + dd, n);
        let i = (jb + m) % n;
        assert(i == (b + 2 + m) % n);
        assert(i != a && i != (a + 1) % n && i != b && i != (b + 1) % n);
        assert(next_by(tw, l[i]) == l[(i + 1) % n]);
        lemma_wrap(i + 1, n);
        lemma_wrap(jb + m + 1, n);
    }
    assert forall|k: nat| 1 <= k <= dd - 1 implies #[trigger] walk_by(tw2, s, k) == l[(a + 1 + k) % n] by {
        lemma_walk_shift(tw2, s, (k - 1) as nat);
        lemma_follow(tw2, l, ja, (dd - 2) as nat, (k - 1) as nat);
        lemma_wrap(ja + k - 1, n);
        lemma_wrap(a + 1 + k, n);
    }
    assert(walk_by(tw2, s, (dd - 1) as nat) == l[b]) by {
        lemma_wrap(a + dd, n);
    }
    assert forall|r: nat| r <= n - dd - 2 implies #[trigger] walk_by(tw2, s, (dd + r) as nat) == l[(a + 2 + dd + r) % n] by {
        lemma_walk_add(tw2, s, (dd - 1) as nat, (1 + r) as nat);
        lemma_walk_shift(tw2, l[b], r);
        lemma_follow(tw2, l, jb, (n - dd - 2) as nat, r);
        lemma_wrap(jb + r, n);
        lemma_wrap(b + 2 + r, n);
        lemma_wrap(a + 2 + dd + r, n);
        lemma_wrap(a + dd, n);
    }
}

/// A boundary loses the edges after two of its positions `a` and `b`: when
/// the new twins `tw2` send each of `l[a]` and `l[b]` where the old ones
/// sent the edge after it, and agree with the old ones on the rest of the
/// boundary, the walk from `l[a]` runs along the old boundary without those
/// two edges, passing `l[b]` after `D - 1` steps, `D` being the distance
/// from `a` to `b`.
#[verifier::rlimit(80)]
#[verifier::spinoff_prover]
pub proof fn lemma_double_shrink(
    tw: spec_fn(EdgeKey) -> EdgeKey,
    tw2: spec_fn(EdgeKey) -> EdgeKey,
    d: Set<u64>,
    dc: Set<u64>,
    l: Seq<EdgeKey>,
    a: int,
    b: int,
)
    requires
        4 <= l.len(),
        closes_by(tw2, dc, l[a]),
        0 <= a < l.len(),
        0 <= b < l.len(),
        a != b,
        a != (b + 1) % (l.len() as int),
        b != (a + 1) % (l.len() as int),
        l.no_duplicates(),
        follows(tw, l),
        pairs_up(tw2, d),
        forall|i: int| 0 <= i < l.len() && i != (a + 1) % (l.len() as int) && i != (b + 1) % (l.len() as int)
            ==> edge_set(d).contains(#[trigger] l[i]),
        next_by(tw2, l[a]) == next_by(tw, l[(a + 1) % (l.len() as int)]),
        next_by(tw2, l[b]) == next_by(tw, l[(b + 1) % (l.len() as int)]),
        forall|i: int| 0 <= i < l.len() && i != a && i != b && i != (a + 1) % (l.len() as int)
            && i != (b + 1) % (l.len() as int) ==> tw2(#[trigger] l[i]) == tw(l[i]),
    ensures
        closes_by_at(tw2, d, l[a], (l.len() - 2) as nat),
        orbit_by(tw2, d, l[a]).no_duplicates(),
        walk_by(tw2, l[a], ((b - a + l.len()) % (l.len() as int) - 1) as nat) == l[b],
        2 <= (b - a + l.len()) % (l.len() as int) <= l.len() - 2,
        forall|f: EdgeKey| #![trigger orbit_by(tw2, d, l[a]).contains(f)]
            orbit_by(tw2, d, l[a]).contains(f) <==> (
                l.contains(f) && f != l[(a + 1) % (l.len() as int)] && f != l[(b + 1) % (l.len() as int)]),
{
    let n = l.len() as int;
    let s = l[a];
    lemma_wrap(b - a + n, n);
    let dd = (b - a + n) % n;
    lemma_wrap(a + 1, n);
    lemma_wrap(b + 1, n);
    lemma_wrap(a + dd, n);
    assert((a + dd) % n == b);
    assert(2 <= dd <= n - 2) by {
        if dd == 1 {
            lemma_wrap(a + 1, n);
        }
        if dd == n - 1 {
            lemma_wrap(b + 1, n);
            assert((b + 1) % n == a) by {
                lemma_wrap(a + n, n);
            }
        }
    }
    lemma_wrap(a + 2, n);
    lemma_wrap(b + 2, n);
    lemma_wrap((a + 1) % n + 1, n);
    lemma_wrap((b + 1) % n + 1, n);
    assert(next_by(tw, l[(a + 1) % n]) == l[((a + 1) % n + 1) % n]);
    assert(next_by(tw, l[(b + 1) % n]) == l[((b + 1) % n + 1) % n]);
    lemma_double_walk(tw, tw2, l, a, b, dd);
    assert(walk_by(tw2, s, (dd - 1) as nat) == l[b]) by {
        if dd - 1 >= 1 {
            assert(walk_by(tw2, s, (dd - 1) as nat) == l[(a + 1 + (dd - 1)) % n]);
        }
    }
    assert(walk_by(tw2, s, (n - 2) as nat) == s) by {
        assert(walk_by(tw2, s, (dd + (n - dd - 2)) as nat) == l[(a + 2 + dd + (n - dd - 2)) % n]);
        lemma_wrap(a + n, n);
    }
    assert forall|k: nat| 0 < k < n - 2 implies #[trigger] walk_by(tw2, s, k) != s by {
        if k <= dd - 1 {
            lemma_wrap(a + 1 + k, n);
        } else {
            let r = (k - dd) as nat;
            assert(walk_by(tw2, s, (dd + r) as nat) == l[(a + 2 + dd + r) % n]);
            lemma_wrap(a + 2 + dd + r, n);
        }
    }
    assert forall|k: nat| k < n - 2 implies (#[trigger] walk_by(tw2, s, k)).offset < 3
        && d.contains(walk_by(tw2, s, k).vertex.id) && tw2(walk_by(tw2, s, k)).valid() by {
        let w = walk_by(tw2, s, k);
        if k == 0 {
            assert(edge_set(d).contains(l[a]));
        } else if k <= dd - 1 {
            lemma_wrap(a + 1 + k, n);
            let i = (a + 1 + k) % n;
            assert(i != (a + 1) % n && i != (b + 1) % n);
            assert(edge_set(d).contains(l[i]));
        } else {
            let r = (k - dd) as nat;
            assert(walk_by(tw2, s, (dd + r) as nat) == l[(a + 2 + dd + r) % n]);
            lemma_wrap(a + 2 + dd + r, n);
            let i = (a + 2 + dd + r) % n;
            assert(i != (a + 1) % n && i != (b + 1) % n);
            assert(edge_set(d).contains(l[i]));
        }
        assert(edge_set(d).contains(w));
        assert(edge_set(d).contains(tw2(w)));
    }
    lemma_return_bound(tw2, dc, s, (n - 2) as nat);
    assert(closes_by_at(tw2, d, s, (n - 2) as nat));
    lemma_orbit_nodup(tw2, d, s, (n - 2) as nat);
    let o = orbit_by(tw2, d, s);
    assert forall|f: EdgeKey| o.contains(f) <==> (l.contains(f) && f != l[(a + 1) % n] && f != l[(b + 1) % n]) by {
        if o.contains(f) {
            let k = choose|k: int| 0 <= k < o.len() && o[k] == f;
            assert(walk_by(tw2, s, k as nat) == f);
            if k == 0 {
                assert(l[a] == f);
            } else if k <= dd - 1 {
                lemma_wrap(a + 1 + k, n);
                assert(l[(a + 1 + k) % n] == f);
            } else {
                let r = (k - dd) as nat;
                assert(walk_by(tw2, s, (dd + r) as nat) == l[(a + 2 + dd + r) % n]);
                lemma_wrap(a + 2 + dd + r, n);
                assert(l[(a + 2 + dd + r) % n] == f);
            }
        }
        if l.contains(f) && f != l[(a + 1) % n] && f != l[(b + 1) % n] {
            let i = choose|i: int| 0 <= i < n && l[i] == f;
            let off: int = if i >= a { i - a } else { i + n - a };
            lemma_wrap(a + off, n);
            assert((a + off) % n == i);
            if off == 0 {
                assert(o[0] == f);
            } else if off <= dd {
                assert(off >= 2);
                let k = off - 1;
                lemma_wrap(a + 1 + k, n);
                assert(walk_by(tw2, s, k as nat) == l[(a + 1 + k) % n]);
                assert(o[k] == f);
            } else {
                assert(off >= dd + 2);
                let r = off - dd - 2;
                lemma_wrap(a + 2 + dd + r, n);
                assert(walk_by(tw2, s, (dd + r) as nat) == l[(a + 2 + dd + r) % n]);
                assert(o[dd + r] == f);
            }
        }
    }
}

/// The wall of `e` has the same bubble on both sides, and that bubble and
/// the two beyond the edges before `e` and its twin differ.
pub open spec fn fold_distinct(vs: Map<u64, Vertex>, e: EdgeKey) -> bool {
    let t = twin_of(vs, e);
    let top = bubble_of(vs, e);
    let right = bubble_of(vs, twin_of(vs, e.spec_prev_on_vertex()));
    let left = bubble_of(vs, twin_of(vs, t.spec_prev_on_vertex()));
    &&& bubble_of(vs, t) == top
    &&& top != left && top != right && left != right
}

/// The boundary of the bubble on both sides of the wall of `e` after its
/// slide, when the graph offers the facts about its lists and the six
/// edges around the wall differ: the walks from `e` and from its twin both
/// run along that bubble without the edges before `e` and its twin.
#[verifier::rlimit(40)]
pub proof fn lemma_fold_top(vs: Map<u64, Vertex>, bs: Map<u64, Bubble>, e: EdgeKey)
    requires
        lists_follow(vs, bs),
        has_edge(vs, e),
        slide_six_distinct(vs, e),
        fold_distinct(vs, e),
        slide_closes(vs, e),
    ensures
        ({
            let d = vs.dom();
            let tw2 = slide_twins(vs, e);
            let t = twin_of(vs, e);
            let ep = e.spec_prev_on_vertex();
            let tp = t.spec_prev_on_vertex();
            let lt = bs[bubble_of(vs, e).id].edges@;
            &&& closes_by_at(tw2, d, e, (lt.len() - 2) as nat)
            &&& closes_by_at(tw2, d, t, (lt.len() - 2) as nat)
            &&& orbit_by(tw2, d, e).no_duplicates()
            &&& orbit_by(tw2, d, t).no_duplicates()
            &&& forall|f: EdgeKey| #![trigger orbit_by(tw2, d, e).contains(f)] #![trigger lt.contains(f)]
                orbit_by(tw2, d, e).contains(f) <==> (lt.contains(f) && f != tp && f != ep)
            &&& forall|f: EdgeKey| #![trigger orbit_by(tw2, d, t).contains(f)]
                orbit_by(tw2, d, t).contains(f) <==> (lt.contains(f) && f != tp && f != ep)
            &&& bubble_of(vs, tp) == bubble_of(vs, e)
            &&& bubble_of(vs, ep) == bubble_of(vs, e)
            &&& pairs_up(tw2, d)
        }),
{
    reveal(lists_follow);
    let d = vs.dom();
    let tw = twins(vs);
    let t = twin_of(vs, e);
    let ep = e.spec_prev_on_vertex();
    let tp = t.spec_prev_on_vertex();
    let x = twin_of(vs, ep);
    let y = twin_of(vs, tp);
    assert(has_edge(vs, e) && edge_set(d).contains(e));
    assert(edge_set(d).contains(t) && has_edge(vs, t));
    assert(has_edge(vs, ep) && edge_set(d).contains(ep));
    assert(has_edge(vs, tp) && edge_set(d).contains(tp));
    assert(edge_set(d).contains(x) && has_edge(vs, x));
    assert(edge_set(d).contains(y) && has_edge(vs, y));
    assert(tw(x) == ep && tw(y) == tp && tw(t) == e);
    lemma_slide_pairs(vs, e);
    let tw2 = slide_twins(vs, e);
    assert(tw2 == linked(linked(linked(tw, e, y), t, x), tp, ep)) by {
        reveal(slide_twins);
    }
    let top = bubble_of(vs, e).id;
    let lft = bubble_of(vs, y).id;
    let rgt = bubble_of(vs, x).id;
    let lt = bs[top].edges@;
    let ll = bs[lft].edges@;
    let lr = bs[rgt].edges@;
    assert(bs.dom().contains(top) && bs.dom().contains(lft) && bs.dom().contains(rgt));
    assert(list_good(tw, d, lt) && list_good(tw, d, ll) && list_good(tw, d, lr));
    assert(lt.contains(e) && lt.contains(t) && ll.contains(y) && lr.contains(x));
    let n = lt.len() as int;
    let a = choose|i: int| 0 <= i < n && lt[i] == e;
    let b = choose|i: int| 0 <= i < n && lt[i] == t;
    let c = choose|i: int| 0 <= i < ll.len() && ll[i] == y;
    let c2 = choose|i: int| 0 <= i < lr.len() && lr[i] == x;
    assert(next_by(tw, lt[a]) == lt[(a + 1) % n]);
    assert(next_by(tw, lt[b]) == lt[(b + 1) % n]);
    assert(lt[(a + 1) % n] == tp);
    assert(lt[(b + 1) % n] == ep);
    lemma_wrap(a + 1, n);
    lemma_wrap(b + 1, n);
    assert(lt.contains(tp) && lt.contains(ep));
    assert(bubble_of(vs, tp).id == top && bubble_of(vs, ep).id == top);
    assert(a != b && a != (b + 1) % n && b != (a + 1) % n);
    assert(n >= 4) by {
        if n < 4 {
            assert((a + 1) % n != (b + 1) % n);
        }
    }
    assert forall|i: int| 0 <= i < n && i != (a + 1) % n && i != (b + 1) % n implies edge_set(d).contains(#[trigger] lt[i]) by {
    }
    assert forall|i: int| 0 <= i < n && i != a && i != b && i != (a + 1) % n && i != (b + 1) % n
        implies tw2(#[trigger] lt[i]) == tw(lt[i]) by {
        assert(lt.contains(lt[i]));
        if lt[i] == x {
            assert(bubble_of(vs, x).id == top);
        }
        if lt[i] == y {
            assert(bubble_of(vs, y).id == top);
        }
    }
    assert(next_by(tw2, lt[a]) == next_by(tw, lt[(a + 1) % n]));
    assert(next_by(tw2, lt[b]) == next_by(tw, lt[(b + 1) % n]));
    lemma_double_shrink(tw, tw2, d, d, lt, a, b);
    let dd = (b - a + n) % n;
    lemma_orbit_rotate(tw2, d, e, (n - 2) as nat, (dd - 1) as nat);
}

/// The boundaries of the two bubbles at the ends of the wall of `e` after
/// its slide, when that wall has the same bubble on both sides: the edges
/// before `e` and its twin join the bubbles beyond each other's twin, as
/// in any slide.
#[verifier::rlimit(40)]
pub proof fn lemma_fold_ends(vs: Map<u64, Vertex>, bs: Map<u64, Bubble>, e: EdgeKey)
    requires
        lists_follow(vs, bs),
        has_edge(vs, e),
        slide_six_distinct(vs, e),
        fold_distinct(vs, e),
        slide_closes(vs, e),
    ensures
        ({
            let d = vs.dom();
            let tw2 = slide_twins(vs, e);
            let t = twin_of(vs, e);
            let ep = e.spec_prev_on_vertex();
            let tp = t.spec_prev_on_vertex();
            let ll = bs[bubble_of(vs, twin_of(vs, tp)).id].edges@;
            let lr = bs[bubble_of(vs, twin_of(vs, ep)).id].edges@;
            &&& closes_by_at(tw2, d, ep, (ll.len() + 1) as nat)
            &&& closes_by_at(tw2, d, tp, (lr.len() + 1) as nat)
            &&& orbit_by(tw2, d, ep).no_duplicates()
            &&& orbit_by(tw2, d, tp).no_duplicates()
            &&& forall|f: EdgeKey| #![trigger orbit_by(tw2, d, ep).contains(f)] #![trigger ll.contains(f)]
                orbit_by(tw2, d, ep).contains(f) <==> (f == ep || ll.contains(f))
            &&& forall|f: EdgeKey| #![trigger orbit_by(tw2, d, tp).contains(f)] #![trigger lr.contains(f)]
                orbit_by(tw2, d, tp).contains(f) <==> (f == tp || lr.contains(f))
        }),
{
    reveal(lists_follow);
    let d = vs.dom();
    let tw = twins(vs);
    let t = twin_of(vs, e);
    let ep = e.spec_prev_on_vertex();
    let tp = t.spec_prev_on_vertex();
    let x = twin_of(vs, ep);
    let y = twin_of(vs, tp);
    assert(has_edge(vs, e) && edge_set(d).contains(e));
    assert(edge_set(d).contains(t) && has_edge(vs, t));
    assert(has_edge(vs, ep) && edge_set(d).contains(ep));
    assert(has_edge(vs, tp) && edge_set(d).contains(tp));
    assert(edge_set(d).contains(x) && has_edge(vs, x));
    assert(edge_set(d).contains(y) && has_edge(vs, y));
    assert(tw(x) == ep && tw(y) == tp && tw(t) == e);
    lemma_slide_pairs(vs, e);
    let tw2 = slide_twins(vs, e);
    assert(tw2 == linked(linked(linked(tw, e, y), t, x), tp, ep)) by {
        reveal(slide_twins);
    }
    let top = bubble_of(vs, e).id;
    let lft = bubble_of(vs, y).id;
    let rgt = bubble_of(vs, x).id;
    let lt = bs[top].edges@;
    let ll = bs[lft].edges@;
    let lr = bs[rgt].edges@;
    assert(bs.dom().contains(top) && bs.dom().contains(lft) && bs.dom().contains(rgt));
    assert(list_good(tw, d, lt) && list_good(tw, d, ll) && list_good(tw, d, lr));
    assert(lt.contains(e) && lt.contains(t) && ll.contains(y) && lr.contains(x));
    let c = choose|i: int| 0 <= i < ll.len() && ll[i] == y;
    let c2 = choose|i: int| 0 <= i < lr.len() && lr[i] == x;
    let a = choose|i: int| 0 <= i < lt.len() && lt[i] == e;
    let b = choose|i: int| 0 <= i < lt.len() && lt[i] == t;
    assert(next_by(tw, lt[a]) == lt[(a + 1) % (lt.len() as int)]);
    assert(next_by(tw, lt[b]) == lt[(b + 1) % (lt.len() as int)]);
    lemma_wrap(a + 1, lt.len() as int);
    lemma_wrap(b + 1, lt.len() as int);
    assert(lt.contains(tp) && lt.contains(ep));
    assert(bubble_of(vs, tp).id == top && bubble_of(vs, ep).id == top);
    // the two bubbles at the ends each gain an edge
    assert(!ll.contains(ep)) by {
        if ll.contains(ep) {
            assert(bubble_of(vs, ep).id == lft);
        }
    }
    assert(!lr.contains(tp)) by {
        if lr.contains(tp) {
            assert(bubble_of(vs, tp).id == rgt);
        }
    }
    assert forall|i: int| 0 <= i < ll.len() && i != c implies tw2(#[trigger] ll[i]) == tw(ll[i]) by {
        assert(ll.contains(ll[i]));
        assert(bubble_of(vs, ll[i]).id == lft);
    }
    assert forall|i: int| 0 <= i < lr.len() && i != c2 implies tw2(#[trigger] lr[i]) == tw(lr[i]) by {
        assert(lr.contains(lr[i]));
        assert(bubble_of(vs, lr[i]).id == rgt);
    }
    assert(next_by(tw2, ep) == next_by(tw, y) && next_by(tw2, y) == ep);
    assert(next_by(tw2, tp) == next_by(tw, x) && next_by(tw2, x) == tp);
    lemma_grow(tw, tw2, d, d, ll, c, ep);
    lemma_grow(tw, tw2, d, d, lr, c2, tp);
    lemma_grown_facts(ll, c, ep);
    lemma_grown_facts(lr, c2, tp);
}

/// The setting of a proof about the slide of a wall with the same bubble
/// on both sides: a graph that keeps its invariants and offers the facts
/// about its lists, such a wall with six different edges around it, and
/// the graph after its slide.
pub open spec fn fold_setting(vs: Map<u64, Vertex>, bs: Map<u64, Bubble>, e: EdgeKey, vs2: Map<u64, Vertex>, bs2: Map<u64, Bubble>) -> bool {
    &&& sane(vs, bs)
    &&& lists_follow(vs, bs)
    &&& has_edge(vs, e)
    &&& slide_six_distinct(vs, e)
    &&& fold_distinct(vs, e)
    &&& slide_closes(vs, e)
    &&& relinked_rebubbled(vs, bs, vs2, bs2, slide_twins(vs, e), slide_chain(vs, e))
}

/// After the slide, the edges before `e` and its twin claim the bubbles
/// beyond each other's twin, every other edge keeps its bubble, and the
/// three bubbles around the wall get their new cycles.
#[verifier::rlimit(80)]
#[verifier::spinoff_prover]
proof fn lemma_fold_labels(vs: Map<u64, Vertex>, bs: Map<u64, Bubble>, e: EdgeKey, vs2: Map<u64, Vertex>, bs2: Map<u64, Bubble>)
    requires
        fold_setting(vs, bs, e, vs2, bs2),
    ensures
        forall|f: EdgeKey| #[trigger] has_edge(vs, f) ==> bubble_of(vs2, f) == (
            if f == twin_of(vs, e).spec_prev_on_vertex() {
                bubble_of(vs, twin_of(vs, e.spec_prev_on_vertex()))
            } else if f == e.spec_prev_on_vertex() {
                bubble_of(vs, twin_of(vs, twin_of(vs, e).spec_prev_on_vertex()))
            } else {
                bubble_of(vs, f)
            }),
        forall|b: u64| #[trigger] bs.dom().contains(b) ==> bs2[b].edges@ == (
            if b == bubble_of(vs, twin_of(vs, e.spec_prev_on_vertex())).id {
                orbit_by(slide_twins(vs, e), vs.dom(), twin_of(vs, e).spec_prev_on_vertex())
            } else if b == bubble_of(vs, twin_of(vs, twin_of(vs, e).spec_prev_on_vertex())).id {
                orbit_by(slide_twins(vs, e), vs.dom(), e.spec_prev_on_vertex())
            } else if b == bubble_of(vs, e).id {
                orbit_by(slide_twins(vs, e), vs.dom(), twin_of(vs, e))
            } else {
                bs[b].edges@
            }),
{
    lemma_fold_top(vs, bs, e);
    lemma_fold_ends(vs, bs, e);
    let d = vs.dom();
    let tw2 = slide_twins(vs, e);
    let t = twin_of(vs, e);
    let ep = e.spec_prev_on_vertex();
    let tp = t.spec_prev_on_vertex();
    let x = twin_of(vs, ep);
    let y = twin_of(vs, tp);
    let top = bubble_of(vs, e);
    let lft = bubble_of(vs, y);
    let rgt = bubble_of(vs, x);
    let o1 = orbit_by(tw2, d, e);
    let o2 = orbit_by(tw2, d, t);
    let o3 = orbit_by(tw2, d, ep);
    let o4 = orbit_by(tw2, d, tp);
    let chain = slide_chain(vs, e);
    assert(chain =~= seq![(top, o1), (top, o2), (lft, o3), (rgt, o4)]);
    reveal_with_fuel(chain_label, 5);
    reveal_with_fuel(chain_list, 5);
    assert(chain.drop_last() =~= seq![(top, o1), (top, o2), (lft, o3)]);
    assert(chain.drop_last().drop_last() =~= seq![(top, o1), (top, o2)]);
    assert(chain.drop_last().drop_last().drop_last() =~= seq![(top, o1)]);
    assert(chain.drop_last().drop_last().drop_last().drop_last() =~= Seq::<(BubbleKey, Seq<EdgeKey>)>::empty());
    reveal(lists_follow);
    let lt = bs[top.id].edges@;
    let ll = bs[lft.id].edges@;
    let lr = bs[rgt.id].edges@;
    assert(has_edge(vs, t) && has_edge(vs, ep) && has_edge(vs, tp));
    assert(edge_set(d).contains(ep) && edge_set(d).contains(tp));
    assert(edge_set(d).contains(twins(vs)(ep)) && edge_set(d).contains(twins(vs)(tp)));
    assert(has_edge(vs, x) && has_edge(vs, y));
    assert(bs.dom().contains(rgt.id) && bs.dom().contains(lft.id) && bs.dom().contains(top.id));
    assert forall|f: EdgeKey| #[trigger] has_edge(vs, f) implies bubble_of(vs2, f) == (
        if f == tp { rgt } else if f == ep { lft } else { bubble_of(vs, f) }) by {
        let bf = bubble_of(vs, f);
        assert(bs.dom().contains(bf.id) && bs[bf.id].edges@.contains(f));
        assert(bubble_of(vs2, f) == chain_label(chain, f, bf));
        if lr.contains(f) {
            assert(bubble_of(vs, f).id == rgt.id);
        }
        if ll.contains(f) {
            assert(bubble_of(vs, f).id == lft.id);
        }
        if lt.contains(f) {
            assert(bubble_of(vs, f).id == top.id);
        }
        if bf == top {
            assert(lt.contains(f));
        } else if bf == lft {
            assert(ll.contains(f));
        } else if bf == rgt {
            assert(lr.contains(f));
        }
    }
    assert forall|b: u64| #[trigger] bs.dom().contains(b) implies bs2[b].edges@ == (
        if b == rgt.id { o4 } else if b == lft.id { o3 } else if b == top.id { o2 } else { bs[b].edges@ }) by {
        assert(bs2[b].edges@ == chain_list(chain, b, bs[b].edges@));
    }
}

/// After the slide, an edge of the list of bubble `b` is an edge of the
/// graph and claims `b`.
#[verifier::rlimit(40)]
#[verifier::spinoff_prover]
proof fn lemma_fold_claim_one(
    vs: Map<u64, Vertex>,
    bs: Map<u64, Bubble>,
    e: EdgeKey,
    vs2: Map<u64, Vertex>,
    bs2: Map<u64, Bubble>,
    b: u64,
    f: EdgeKey,
)
    requires
        fold_setting(vs, bs, e, vs2, bs2),
        bs2.dom().contains(b),
        bs2[b].edges@.contains(f),
    ensures
        has_edge(vs2, f),
        bubble_of(vs2, f).id == b,
{
    let d = vs.dom();
    let tw2 = slide_twins(vs, e);
    let t = twin_of(vs, e);
    let ep = e.spec_prev_on_vertex();
    let tp = t.spec_prev_on_vertex();
    let x = twin_of(vs, ep);
    let y = twin_of(vs, tp);
    let top = bubble_of(vs, e).id;
    let lft = bubble_of(vs, y).id;
    let rgt = bubble_of(vs, x).id;
    lemma_fold_top(vs, bs, e);
    lemma_fold_ends(vs, bs, e);
    lemma_fold_labels(vs, bs, e, vs2, bs2);
    reveal(lists_follow);
    let lt = bs[top].edges@;
    let ll = bs[lft].edges@;
    let lr = bs[rgt].edges@;
    assert(has_edge(vs, ep) && has_edge(vs, tp) && has_edge(vs, t));
    assert(has_edge(vs, x) && has_edge(vs, y)) by {
        assert(edge_set(d).contains(ep) && edge_set(d).contains(tp));
        assert(edge_set(d).contains(twins(vs)(ep)) && edge_set(d).contains(twins(vs)(tp)));
    }
    assert(bs.dom().contains(b));
    assert(bs.dom().contains(top) && bs.dom().contains(lft) && bs.dom().contains(rgt));
    let lo: Seq<EdgeKey> = if b == rgt {
        if f == tp { lt } else { lr }
    } else if b == lft {
        if f == ep { lt } else { ll }
    } else if b == top {
        lt
    } else {
        bs[b].edges@
    };
    if b == rgt {
        assert(orbit_by(tw2, d, tp).contains(f));
        if f != tp {
            assert(lr.contains(f));
            assert(bubble_of(vs, f).id == rgt);
            assert(f != ep);
        }
    } else if b == lft {
        assert(orbit_by(tw2, d, ep).contains(f));
        if f != ep {
            assert(ll.contains(f));
            assert(bubble_of(vs, f).id == lft);
            assert(f != tp);
        }
    } else if b == top {
        assert(orbit_by(tw2, d, t).contains(f));
        assert(lt.contains(f) && f != tp && f != ep);
        assert(bubble_of(vs, f).id == top);
    } else {
        assert(bs[b].edges@.contains(f));
        assert(bubble_of(vs, f).id == b);
        assert(f != tp && f != ep);
    }
    assert(lo.contains(f));
    let bo = bubble_of(vs, f).id;
    assert(bs.dom().contains(bo) && bs[bo].edges@ == lo);
    assert(list_good(twins(vs), d, lo));
    let i = choose|i: int| 0 <= i < lo.len() && lo[i] == f;
    assert(edge_set(d).contains(lo[i]));
    assert(has_edge(vs, f));
    assert(has_edge(vs2, f));
}

/// After the slide, each edge of each list claims the list's bubble.
proof fn lemma_fold_claims(vs: Map<u64, Vertex>, bs: Map<u64, Bubble>, e: EdgeKey, vs2: Map<u64, Vertex>, bs2: Map<u64, Bubble>)
    requires
        fold_setting(vs, bs, e, vs2, bs2),
    ensures
        forall|b: u64, f: EdgeKey| bs2.dom().contains(b) && #[trigger] bs2[b].edges@.contains(f) ==>
            has_edge(vs2, f) && bubble_of(vs2, f).id == b,
{
    assert forall|b: u64, f: EdgeKey| bs2.dom().contains(b) && #[trigger] bs2[b].edges@.contains(f) implies
        has_edge(vs2, f) && bubble_of(vs2, f).id == b by {
        lemma_fold_claim_one(vs, bs, e, vs2, bs2, b, f);
    }
}

/// After the slide, a position of the list of a bubble that the slide
/// leaves alone is in order.
#[verifier::rlimit(40)]
#[verifier::spinoff_prover]
proof fn lemma_fold_untouched(
    vs: Map<u64, Vertex>,
    bs: Map<u64, Bubble>,
    e: EdgeKey,
    vs2: Map<u64, Vertex>,
    bs2: Map<u64, Bubble>,
    b: u64,
    i: int,
)
    requires
        fold_setting(vs, bs, e, vs2, bs2),
        bs.dom().contains(b),
        b != bubble_of(vs, e).id,
        b != bubble_of(vs, twin_of(vs, e.spec_prev_on_vertex())).id,
        b != bubble_of(vs, twin_of(vs, twin_of(vs, e).spec_prev_on_vertex())).id,
        bs2[b].edges@ == bs[b].edges@,
        0 <= i < bs[b].edges@.len(),
        bubble_of(vs2, bs[b].edges@[i]).id == b,
    ensures
        boundary_ok(vs2, bs2, b, i),
{
    reveal(lists_follow);
    let d = vs.dom();
    let tw = twins(vs);
    let tw2 = slide_twins(vs, e);
    let t = twin_of(vs, e);
    let ep = e.spec_prev_on_vertex();
    let tp = t.spec_prev_on_vertex();
    let x = twin_of(vs, ep);
    let y = twin_of(vs, tp);
    let l = bs[b].edges@;
    let f = l[i];
    lemma_next_same_bubble(vs, bs, e);
    lemma_next_same_bubble(vs, bs, twin_of(vs, e));
    assert(list_good(tw, d, l));
    assert(l.contains(f));
    assert(bubble_of(vs, f).id == b);
    assert(has_edge(vs, e) && has_edge(vs, t) && has_edge(vs, ep) && has_edge(vs, tp));
    assert(edge_set(d).contains(ep) && edge_set(d).contains(tp) && edge_set(d).contains(e));
    assert(edge_set(d).contains(tw(ep)) && edge_set(d).contains(tw(tp)) && edge_set(d).contains(tw(e)));
    assert(has_edge(vs, x) && has_edge(vs, y));
    assert(tw2 == linked(linked(linked(tw, e, y), t, x), tp, ep)) by {
        reveal(slide_twins);
    }
    assert(f != e && f != t && f != x && f != y && f != ep && f != tp);
    assert(edge_set(d).contains(f));
    assert(edge_set(d).contains(tw(f)) && tw(tw(f)) == f);
    let g = tw(f);
    assert(g != e && g != t && g != x && g != y && g != ep && g != tp);
    assert(vs2.dom() == vs.dom() && twins_are(vs2, tw2));
    assert(has_edge(vs2, f) && has_edge(vs2, g));
    assert(twin_of(vs2, f) == tw2(f));
    assert(tw2(f) == g);
    assert(twin_of(vs2, g) == tw2(g));
    assert(tw2(g) == f);
    assert(next_by(tw, l[i]) == l[(i + 1) % (l.len() as int)]);
    assert(next_edge(vs2, f) == next_by(tw, f));
}

/// After the slide, every position of the list of bubble `b` is in order.
#[verifier::rlimit(40)]
#[verifier::spinoff_prover]
proof fn lemma_fold_boundary_one(vs: Map<u64, Vertex>, bs: Map<u64, Bubble>, e: EdgeKey, vs2: Map<u64, Vertex>, bs2: Map<u64, Bubble>, b: u64)
    requires
        fold_setting(vs, bs, e, vs2, bs2),
        bs2.dom().contains(b),
        forall|b2: u64, f: EdgeKey| bs2.dom().contains(b2) && #[trigger] bs2[b2].edges@.contains(f) ==>
            has_edge(vs2, f) && bubble_of(vs2, f).id == b2,
    ensures
        forall|i: int| 0 <= i < bs2[b].edges@.len() ==> #[trigger] boundary_ok(vs2, bs2, b, i),
{
    let tw2 = slide_twins(vs, e);
    let t = twin_of(vs, e);
    let ep = e.spec_prev_on_vertex();
    let tp = t.spec_prev_on_vertex();
    let x = twin_of(vs, ep);
    let y = twin_of(vs, tp);
    let top = bubble_of(vs, e).id;
    let lft = bubble_of(vs, y).id;
    let rgt = bubble_of(vs, x).id;
    lemma_fold_top(vs, bs, e);
    lemma_fold_ends(vs, bs, e);
    lemma_fold_labels(vs, bs, e, vs2, bs2);
    assert(vs2.dom() == vs.dom() && twins_are(vs2, tw2));
    assert(bs.dom().contains(b));
    if b == rgt {
        lemma_orbit_list_ok(vs2, bs2, tw2, tp, (bs[rgt].edges@.len() + 1) as nat, b);
    } else if b == lft {
        lemma_orbit_list_ok(vs2, bs2, tw2, ep, (bs[lft].edges@.len() + 1) as nat, b);
    } else if b == top {
        lemma_orbit_list_ok(vs2, bs2, tw2, t, (bs[top].edges@.len() - 2) as nat, b);
    } else {
        assert(bs2[b].edges@ == bs[b].edges@);
        assert forall|i: int| 0 <= i < bs2[b].edges@.len() implies #[trigger] boundary_ok(vs2, bs2, b, i) by {
            assert(bs2[b].edges@.contains(bs[b].edges@[i]));
            lemma_fold_untouched(vs, bs, e, vs2, bs2, b, i);
        }
    }
}

/// After the slide, the edge `f` is in some list.
#[verifier::rlimit(40)]
#[verifier::spinoff_prover]
proof fn lemma_fold_listed_one(vs: Map<u64, Vertex>, bs: Map<u64, Bubble>, e: EdgeKey, vs2: Map<u64, Vertex>, bs2: Map<u64, Bubble>, f: EdgeKey)
    requires
        fold_setting(vs, bs, e, vs2, bs2),
        has_edge(vs2, f),
    ensures
        listed(bs2, f),
{
    let d = vs.dom();
    let tw2 = slide_twins(vs, e);
    let t = twin_of(vs, e);
    let ep = e.spec_prev_on_vertex();
    let tp = t.spec_prev_on_vertex();
    let x = twin_of(vs, ep);
    let y = twin_of(vs, tp);
    let top = bubble_of(vs, e).id;
    let lft = bubble_of(vs, y).id;
    let rgt = bubble_of(vs, x).id;
    lemma_fold_top(vs, bs, e);
    lemma_fold_ends(vs, bs, e);
    lemma_fold_labels(vs, bs, e, vs2, bs2);
    reveal(lists_follow);
    assert(has_edge(vs, ep) && has_edge(vs, tp) && has_edge(vs, t));
    assert(has_edge(vs, x) && has_edge(vs, y)) by {
        assert(edge_set(d).contains(ep) && edge_set(d).contains(tp));
        assert(edge_set(d).contains(twins(vs)(ep)) && edge_set(d).contains(twins(vs)(tp)));
    }
    assert(bs.dom().contains(top) && bs.dom().contains(lft) && bs.dom().contains(rgt));
    assert(has_edge(vs, f));
    let bf = bubble_of(vs, f).id;
    assert(bs.dom().contains(bf) && bs[bf].edges@.contains(f));
    let b: u64 = if f == tp {
        rgt
    } else if f == ep {
        lft
    } else {
        bf
    };
    if f == tp {
        assert(orbit_by(tw2, d, tp).contains(f));
    } else if f == ep {
        assert(orbit_by(tw2, d, ep).contains(f));
    } else if bf == rgt {
        assert(orbit_by(tw2, d, tp).contains(f));
    } else if bf == lft {
        assert(orbit_by(tw2, d, ep).contains(f));
    } else if bf == top {
        assert(orbit_by(tw2, d, t).contains(f));
    } else {
        assert(bs2[bf].edges@ == bs[bf].edges@);
    }
    assert(bs.dom().contains(b));
    assert(bs2[b].edges@.contains(f));
    let l = bs2[b].edges@;
    let i = choose|i: int| 0 <= i < l.len() && l[i] == f;
    assert(bs2.dom().contains(b) && bs2[b].edges@[i] == f);
}

/// After the slide of a wall with the same bubble on both sides, the lists
/// keep their invariants.
#[verifier::rlimit(40)]
pub proof fn lemma_fold_listing(vs: Map<u64, Vertex>, bs: Map<u64, Bubble>, e: EdgeKey, vs2: Map<u64, Vertex>, bs2: Map<u64, Bubble>)
    requires
        fold_setting(vs, bs, e, vs2, bs2),
    ensures
        listing_ok(vs2, bs2),
{
    let d = vs.dom();
    lemma_fold_claims(vs, bs, e, vs2, bs2);
    assert forall|b: u64, i: int| bs2.dom().contains(b) && 0 <= i < bs2[b].edges@.len() implies
        #[trigger] boundary_ok(vs2, bs2, b, i) by {
        lemma_fold_boundary_one(vs, bs, e, vs2, bs2, b);
    }
    assert forall|f: EdgeKey| #[trigger] has_edge(vs2, f) implies listed(bs2, f) by {
        lemma_fold_listed_one(vs, bs, e, vs2, bs2, f);
    }
    lemma_fold_top(vs, bs, e);
    lemma_fold_ends(vs, bs, e);
    lemma_fold_labels(vs, bs, e, vs2, bs2);
    reveal(lists_follow);
    assert forall|b: u64| #[trigger] bs2.dom().contains(b) implies bs2[b].edges@.len() > 0 by {
        assert(bs.dom().contains(b));
        assert(list_good(twins(vs), d, bs[b].edges@));
        lemma_fold_boundary_one(vs, bs, e, vs2, bs2, b);
    }
    assert forall|b1: u64, i1: int, b2: u64, i2: int|
        bs2.dom().contains(b1) && 0 <= i1 < bs2[b1].edges@.len() && bs2.dom().contains(b2) && 0 <= i2 < bs2[b2].edges@.len()
        && (b1 != b2 || i1 != i2) implies #[trigger] bs2[b1].edges@[i1] != #[trigger] bs2[b2].edges@[i2] by {
        assert(boundary_ok(vs2, bs2, b1, i1) && boundary_ok(vs2, bs2, b2, i2));
        if b1 == b2 {
            assert(bs.dom().contains(b1));
            assert(list_good(twins(vs), d, bs[b1].edges@));
            assert(bs2[b1].edges@.no_duplicates());
        }
    }
    let o = choose|o: u64| sole_open_air(bs, o);
    assert(sole_open_air(bs2, o)) by {
        assert forall|j: u64| bs2.dom().contains(j) && (#[trigger] bs2[j].style).is_open_air() implies j == o by {
            assert(bs.dom().contains(j));
        }
    }
}

} // verus!
