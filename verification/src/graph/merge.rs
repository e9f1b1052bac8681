//! What the merging step of a removal does to the boundaries: the bubble
//! on the far side of the wall joins the near one, the bubbles at the
//! wall's two ends each lose one edge (one bubble at both ends loses two),
//! and every other boundary stays as it was.
use vstd::prelude::*;
use crate::graph::bubble::{Bubble, BubbleKey};
use crate::graph::closure::{edge_set, law_merge_ready, law_slide_ready, lemma_merge_pairs, merge_apart, pairs_up};
use crate::graph::edge::EdgeKey;
use crate::graph::flip::{
    follows, lemma_closes_by_unique, lemma_return_bound, lemma_follow, lemma_orbit_list_ok, lemma_sane_lists_follow,
    lemma_shrink, lemma_shrunk_facts, lemma_walk_shift, lemma_wrap, list_good, lists_follow, next_by,
};
use crate::graph::laws::law_merge_keeps_counts;
use crate::graph::fold::lemma_double_shrink;
use crate::graph::digon::{
    law_digon_merge_keeps_sane, law_digon_ready, law_lower_digon_merge_keeps_sane, lemma_digon_apart,
    lemma_lower_digon_apart,
};
use crate::graph::flip::{law_slide_keeps_sane, law_slides_keep_sane, slides_tame};
use crate::graph::growth::{lemma_next_same_bubble, lemma_orbit_nodup, lemma_walk_add};
use crate::graph::spec::{
    boundary_ok, bubble_of, chain_label, chain_list, closes_by, closes_by_at, degenerate_edges, is_degenerate, keys_valid,
    linked, listed, listing_ok, merged, orbit_by, remove_blocked, remove_case, remove_chain, remove_links_ok, remove_post,
    remove_reads_ok, remove_twins, degenerate_reads_ok, slide_flips, slide_post, slide_reads_ok, slides_ok,
    sane, slide_trace, slides_post, sole_open_air, twin_of, twins, twins_are, walk_by,
};
use crate::graph::vertex::{has_edge, next_edge, Vertex};
use crate::slots::issued_key;

verus! {

/// Two boundaries become one: when the new twins `tw2` send the edge at
/// position `p` of `lt` to the edge three places after position `q` of
/// `lb`, send the edge at `q` to the edge three places after `p`, and agree
/// with the old twins elsewhere on both boundaries, the walk from `lt[p]`
/// runs along `lb` from there round to `q`, then along `lt` back to `p`,
/// leaving out the two edges after `p` and the two after `q`.
#[verifier::rlimit(60)]
#[verifier::spinoff_prover]
pub proof fn lemma_splice(
    tw: spec_fn(EdgeKey) -> EdgeKey,
    tw2: spec_fn(EdgeKey) -> EdgeKey,
    d: Set<u64>,
    dc: Set<u64>,
    lt: Seq<EdgeKey>,
    lb: Seq<EdgeKey>,
    p: int,
    q: int,
)
    requires
        3 <= lt.len(),
        3 <= lb.len(),
        closes_by(tw2, dc, lt[p]),
        0 <= p < lt.len(),
        0 <= q < lb.len(),
        lt.no_duplicates(),
        lb.no_duplicates(),
        forall|i: int, j: int| 0 <= i < lt.len() && 0 <= j < lb.len() ==> #[trigger] lt[i] != #[trigger] lb[j],
        follows(tw, lt),
        follows(tw, lb),
        pairs_up(tw2, d),
        next_by(tw2, lt[p]) == lb[(q + 3) % (lb.len() as int)],
        next_by(tw2, lb[q]) == lt[(p + 3) % (lt.len() as int)],
        edge_set(d).contains(lt[p]),
        edge_set(d).contains(lb[q]),
        forall|i: int| 0 <= i < lt.len() && i != p && i != (p + 1) % (lt.len() as int) && i != (p + 2) % (lt.len() as int)
            ==> tw2(#[trigger] lt[i]) == tw(lt[i]) && edge_set(d).contains(lt[i]),
        forall|i: int| 0 <= i < lb.len() && i != q && i != (q + 1) % (lb.len() as int) && i != (q + 2) % (lb.len() as int)
            ==> tw2(#[trigger] lb[i]) == tw(lb[i]) && edge_set(d).contains(lb[i]),
    ensures
        closes_by_at(tw2, d, lt[p], (lt.len() + lb.len() - 4) as nat),
        orbit_by(tw2, d, lt[p]).no_duplicates(),
        forall|f: EdgeKey| #![trigger orbit_by(tw2, d, lt[p]).contains(f)]
            orbit_by(tw2, d, lt[p]).contains(f) <==> (
                (lt.contains(f) && f != lt[(p + 1) % (lt.len() as int)] && f != lt[(p + 2) % (lt.len() as int)])
                || (lb.contains(f) && f != lb[(q + 1) % (lb.len() as int)] && f != lb[(q + 2) % (lb.len() as int)])),
{
    let nt = lt.len() as int;
    let nb = lb.len() as int;
    let n = nt + nb - 4;
    let s = lt[p];
    let jb = (q + 3) % nb;
    let jt = (p + 3) % nt;
    lemma_wrap(q + 1, nb);
    lemma_wrap(q + 2, nb);
    lemma_wrap(q + 3, nb);
    lemma_wrap(p + 1, nt);
    lemma_wrap(p + 2, nt);
    lemma_wrap(p + 3, nt);
    // along the far boundary
    assert forall|m: int| 0 <= m < nb - 3 implies #[trigger] next_by(tw2, lb[(jb + m) % nb]) == lb[(jb + m + 1) % nb] by {
        lemma_wrap(jb + m, nb);
        lemma_wrap(q + 3 + m, nb);
        let i = (jb + m) % nb;
        assert(i == (q + 3 + m) % nb);
        assert(i != q && i != (q + 1) % nb && i != (q + 2) % nb);
        assert(next_by(tw, lb[i]) == lb[(i + 1) % nb]);
        lemma_wrap(i + 1, nb);
        lemma_wrap(jb + m + 1, nb);
    }
    // along the near boundary
    assert forall|m: int| 0 <= m < nt - 3 implies #[trigger] next_by(tw2, lt[(jt + m) % nt]) == lt[(jt + m + 1) % nt] by {
        lemma_wrap(jt + m, nt);
        lemma_wrap(p + 3 + m, nt);
        let i = (jt + m) % nt;
        assert(i == (p + 3 + m) % nt);
        assert(i != p && i != (p + 1) % nt && i != (p + 2) % nt);
        assert(next_by(tw, lt[i]) == lt[(i + 1) % nt]);
        lemma_wrap(i + 1, nt);
        lemma_wrap(jt + m + 1, nt);
    }
    assert forall|k: nat| 1 <= k <= nb - 2 implies #[trigger] walk_by(tw2, s, k) == lb[(q + 2 + k) % nb] by {
        lemma_walk_shift(tw2, s, (k - 1) as nat);
        lemma_follow(tw2, lb, jb, (nb - 3) as nat, (k - 1) as nat);
        lemma_wrap(jb + k - 1, nb);
        lemma_wrap(q + 2 + k, nb);
    }
    assert(walk_by(tw2, s, (nb - 2) as nat) == lb[q]) by {
        lemma_wrap(q + nb, nb);
    }
    assert forall|r: nat| r <= nt - 3 implies #[trigger] walk_by(tw2, s, (nb - 1 + r) as nat) == lt[(p + 3 + r) % nt] by {
        lemma_walk_add(tw2, s, (nb - 2) as nat, (1 + r) as nat);
        lemma_walk_shift(tw2, lb[q], r);
        lemma_follow(tw2, lt, jt, (nt - 3) as nat, r);
        lemma_wrap(jt + r, nt);
        lemma_wrap(p + 3 + r, nt);
    }
    assert(walk_by(tw2, s, n as nat) == s) by {
        assert(walk_by(tw2, s, (nb - 1 + (nt - 3)) as nat) == lt[(p + 3 + (nt - 3)) % nt]);
        lemma_wrap(p + nt, nt);
    }
    assert forall|k: nat| 0 < k < n implies #[trigger] walk_by(tw2, s, k) != s by {
        if k <= nb - 2 {
            lemma_wrap(q + 2 + k, nb);
            assert(lt[p] != lb[(q + 2 + k) % nb]);
        } else {
            let r = (k - (nb - 1)) as nat;
            assert(walk_by(tw2, s, (nb - 1 + r) as nat) == lt[(p + 3 + r) % nt]);
            lemma_wrap(p + 3 + r, nt);
        }
    }
    assert forall|k: nat| k < n implies (#[trigger] walk_by(tw2, s, k)).offset < 3
        && d.contains(walk_by(tw2, s, k).vertex.id) && tw2(walk_by(tw2, s, k)).valid() by {
        let w = walk_by(tw2, s, k);
        if k == 0 {
        } else if k <= nb - 2 {
            lemma_wrap(q + 2 + k, nb);
            let i = (q + 2 + k) % nb;
            assert(i != (q + 1) % nb && i != (q + 2) % nb);
            if i != q {
                assert(edge_set(d).contains(lb[i]));
            }
        } else {
            let r = (k - (nb - 1)) as nat;
            assert(walk_by(tw2, s, (nb - 1 + r) as nat) == lt[(p + 3 + r) % nt]);
            lemma_wrap(p + 3 + r, nt);
            let i = (p + 3 + r) % nt;
            assert(i != p && i != (p + 1) % nt && i != (p + 2) % nt);
            assert(edge_set(d).contains(lt[i]));
        }
        assert(edge_set(d).contains(w));
        assert(edge_set(d).contains(tw2(w)));
    }
    lemma_return_bound(tw2, dc, s, n as nat);
    assert(closes_by_at(tw2, d, s, n as nat));
    lemma_orbit_nodup(tw2, d, s, n as nat);
    let o = orbit_by(tw2, d, s);
    assert forall|f: EdgeKey| o.contains(f) <==> (
        (lt.contains(f) && f != lt[(p + 1) % nt] && f != lt[(p + 2) % nt])
        || (lb.contains(f) && f != lb[(q + 1) % nb] && f != lb[(q + 2) % nb])) by {
        if o.contains(f) {
            let k = choose|k: int| 0 <= k < o.len() && o[k] == f;
            assert(walk_by(tw2, s, k as nat) == f);
            if k == 0 {
                assert(lt[p] == f);
            } else if k <= nb - 2 {
                lemma_wrap(q + 2 + k, nb);
                assert(lb[(q + 2 + k) % nb] == f);
            } else {
                let r = (k - (nb - 1)) as nat;
                assert(walk_by(tw2, s, (nb - 1 + r) as nat) == lt[(p + 3 + r) % nt]);
                lemma_wrap(p + 3 + r, nt);
                assert(lt[(p + 3 + r) % nt] == f);
            }
        }
        if lt.contains(f) && f != lt[(p + 1) % nt] && f != lt[(p + 2) % nt] {
            let i = choose|i: int| 0 <= i < nt && lt[i] == f;
            if i == p {
                assert(o[0] == f);
            } else {
                let r: int = if i >= p + 3 { i - p - 3 } else { i + nt - p - 3 };
                lemma_wrap(p + 3 + r, nt);
                assert(0 <= r <= nt - 4);
                assert(walk_by(tw2, s, (nb - 1 + r) as nat) == lt[(p + 3 + r) % nt]);
                assert(o[nb - 1 + r] == f);
            }
        }
        if lb.contains(f) && f != lb[(q + 1) % nb] && f != lb[(q + 2) % nb] {
            let i = choose|i: int| 0 <= i < nb && lb[i] == f;
            let k: int = if i >= q + 3 { i - q - 2 } else { i + nb - q - 2 };
            lemma_wrap(q + 2 + k, nb);
            assert(1 <= k <= nb - 2);
            assert(walk_by(tw2, s, k as nat) == lb[(q + 2 + k) % nb]);
            assert(o[k] == f);
        }
    }
}

/// A walk that closes among some vertices closes among more of them after
/// as many steps, along the same cycle.
pub proof fn lemma_orbit_wider(tw: spec_fn(EdgeKey) -> EdgeKey, small: Set<u64>, big: Set<u64>, s: EdgeKey, n: nat)
    requires
        closes_by_at(tw, small, s, n),
        small.subset_of(big),
    ensures
        closes_by_at(tw, big, s, n),
        orbit_by(tw, big, s) == orbit_by(tw, small, s),
{
    assert(closes_by_at(tw, big, s, n));
    lemma_closes_by_unique(tw, small, s, n);
    lemma_closes_by_unique(tw, big, s, n);
}

/// The bubbles around the wall of `e` differ as a removal needs: those of
/// the edge and of its twin, and each of those from the bubbles of the
/// edges after them at their vertices, which may be one bubble.
pub open spec fn merge_sides(vs: Map<u64, Vertex>, e: EdgeKey) -> bool {
    let t = twin_of(vs, e);
    let top = bubble_of(vs, e);
    let bottom = bubble_of(vs, t);
    let right = bubble_of(vs, e.spec_next_on_vertex());
    let left = bubble_of(vs, t.spec_next_on_vertex());
    &&& top != bottom && top != left && top != right
    &&& bottom != left && bottom != right
}

/// The setting of a merge proof: a graph that offers the facts about its
/// lists, and a wall of it that joins two different vertices with outer
/// neighbors elsewhere and bubbles around it that differ as a removal
/// needs, whose merge's walks close.
pub open spec fn merge_fresh(vs: Map<u64, Vertex>, bs: Map<u64, Bubble>, e: EdgeKey) -> bool {
    &&& lists_follow(vs, bs)
    &&& remove_links_ok(vs, e)
    &&& has_edge(vs, e)
    &&& merge_apart(vs, e)
    &&& merge_sides(vs, e)
}

/// Around a wall with four different bubbles: the edges of its two
/// vertices and their twins exist, and each claims the bubble it runs along.
pub proof fn lemma_merge_around(vs: Map<u64, Vertex>, bs: Map<u64, Bubble>, e: EdgeKey)
    requires
        merge_fresh(vs, bs, e),
    ensures
        ({
            let t = twin_of(vs, e);
            let en = e.spec_next_on_vertex();
            let ep = e.spec_prev_on_vertex();
            let tn = t.spec_next_on_vertex();
            let tp = t.spec_prev_on_vertex();
            let ent = twin_of(vs, en);
            let ept = twin_of(vs, ep);
            let tnt = twin_of(vs, tn);
            let tpt = twin_of(vs, tp);
            &&& has_edge(vs, t) && has_edge(vs, en) && has_edge(vs, ep) && has_edge(vs, tn) && has_edge(vs, tp)
            &&& has_edge(vs, ent) && has_edge(vs, ept) && has_edge(vs, tnt) && has_edge(vs, tpt)
            &&& twin_of(vs, t) == e && twin_of(vs, ent) == en && twin_of(vs, ept) == ep
            &&& twin_of(vs, tnt) == tn && twin_of(vs, tpt) == tp
            &&& bubble_of(vs, ent) == bubble_of(vs, e) && bubble_of(vs, tp) == bubble_of(vs, e)
            &&& bubble_of(vs, tnt) == bubble_of(vs, t) && bubble_of(vs, ep) == bubble_of(vs, t)
            &&& bubble_of(vs, ept) == bubble_of(vs, en)
            &&& bubble_of(vs, tpt) == bubble_of(vs, tn)
            &&& next_by(twins(vs), ent) == e && next_by(twins(vs), e) == tp
            &&& next_by(twins(vs), tnt) == t && next_by(twins(vs), t) == ep
            &&& next_by(twins(vs), ept) == en && next_by(twins(vs), tpt) == tn
        }),
{
    reveal(lists_follow);
    let d = vs.dom();
    let tw = twins(vs);
    let t = tw(e);
    let en = e.spec_next_on_vertex();
    let ep = e.spec_prev_on_vertex();
    assert(edge_set(d).contains(e) && edge_set(d).contains(en) && edge_set(d).contains(ep));
    assert(edge_set(d).contains(t));
    let tn = t.spec_next_on_vertex();
    let tp = t.spec_prev_on_vertex();
    assert(edge_set(d).contains(tn) && edge_set(d).contains(tp));
    let ent = tw(en);
    let ept = tw(ep);
    let tnt = tw(tn);
    let tpt = tw(tp);
    assert(edge_set(d).contains(ent) && edge_set(d).contains(ept) && edge_set(d).contains(tnt) && edge_set(d).contains(tpt));
    assert(tw(ent) == en && tw(ept) == ep && tw(tnt) == tn && tw(tpt) == tp && tw(t) == e);
    lemma_next_same_bubble(vs, bs, ent);
    lemma_next_same_bubble(vs, bs, e);
    lemma_next_same_bubble(vs, bs, tnt);
    lemma_next_same_bubble(vs, bs, t);
    lemma_next_same_bubble(vs, bs, ept);
    lemma_next_same_bubble(vs, bs, tpt);
}

/// The facts every merge proof starts from: the twins pair up the edges
/// before and after, and after the merge they are the old ones with the
/// outer twins linked in two pairs.
proof fn lemma_merge_start(vs: Map<u64, Vertex>, bs: Map<u64, Bubble>, e: EdgeKey)
    requires
        merge_fresh(vs, bs, e),
    ensures
        pairs_up(twins(vs), vs.dom()),
        remove_case(vs, e) == 3,
        pairs_up(remove_twins(vs, e), vs.dom().remove(e.vertex.id).remove(twin_of(vs, e).vertex.id)),
        remove_twins(vs, e) == linked(
            linked(twins(vs), twin_of(vs, e.spec_next_on_vertex()), twin_of(vs, e.spec_prev_on_vertex())),
            twin_of(vs, twin_of(vs, e).spec_next_on_vertex()),
            twin_of(vs, twin_of(vs, e).spec_prev_on_vertex()),
        ),
{
    reveal(lists_follow);
    lemma_merge_pairs(vs, e);
    reveal(remove_twins);
}

/// After the merge, the walk from the twin of the edge after the wall's
/// edge at its first vertex goes round the near bubble and the far bubble
/// together, without the wall and the two edges next to it.
#[verifier::rlimit(40)]
proof fn lemma_merge_top(vs: Map<u64, Vertex>, bs: Map<u64, Bubble>, e: EdgeKey)
    requires
        merge_fresh(vs, bs, e),
    ensures
        ({
            let t = twin_of(vs, e);
            let d2 = vs.dom().remove(e.vertex.id).remove(t.vertex.id);
            let tw2 = remove_twins(vs, e);
            let ent = twin_of(vs, e.spec_next_on_vertex());
            let lt = bs[bubble_of(vs, e).id].edges@;
            let lb = bs[bubble_of(vs, t).id].edges@;
            &&& closes_by_at(tw2, d2, ent, (lt.len() + lb.len() - 4) as nat)
            &&& orbit_by(tw2, vs.dom(), ent) == orbit_by(tw2, d2, ent)
            &&& orbit_by(tw2, d2, ent).no_duplicates()
            &&& forall|f: EdgeKey| #![trigger orbit_by(tw2, d2, ent).contains(f)]
                orbit_by(tw2, d2, ent).contains(f) <==> (
                    (lt.contains(f) && f != e && f != t.spec_prev_on_vertex())
                    || (lb.contains(f) && f != t && f != e.spec_prev_on_vertex()))
        }),
{
    lemma_merge_start(vs, bs, e);
    lemma_merge_around(vs, bs, e);
    reveal(lists_follow);
    let d = vs.dom();
    let tw = twins(vs);
    let t = tw(e);
    let u = e.vertex.id;
    let w = t.vertex.id;
    let d2 = d.remove(u).remove(w);
    let tw2 = remove_twins(vs, e);
    let en = e.spec_next_on_vertex();
    let ep = e.spec_prev_on_vertex();
    let tn = t.spec_next_on_vertex();
    let tp = t.spec_prev_on_vertex();
    let ent = tw(en);
    let ept = tw(ep);
    let tnt = tw(tn);
    let tpt = tw(tp);
    let bt = bubble_of(vs, e).id;
    let bb = bubble_of(vs, t).id;
    let lt = bs[bt].edges@;
    let lb = bs[bb].edges@;
    assert(bs.dom().contains(bt) && bs.dom().contains(bb));
    assert(list_good(tw, d, lt) && list_good(tw, d, lb));
    assert(lt.contains(ent) && lb.contains(tnt));
    let nt = lt.len() as int;
    let nb = lb.len() as int;
    let p = choose|i: int| 0 <= i < nt && lt[i] == ent;
    let q = choose|i: int| 0 <= i < nb && lb[i] == tnt;
    lemma_wrap(p + 1, nt);
    lemma_wrap(p + 2, nt);
    lemma_wrap((p + 1) % nt + 1, nt);
    lemma_wrap((p + 2) % nt + 1, nt);
    lemma_wrap(p + 3, nt);
    lemma_wrap(q + 1, nb);
    lemma_wrap(q + 2, nb);
    lemma_wrap((q + 1) % nb + 1, nb);
    lemma_wrap((q + 2) % nb + 1, nb);
    lemma_wrap(q + 3, nb);
    assert(next_by(tw, lt[p]) == lt[(p + 1) % nt]);
    assert(lt[(p + 1) % nt] == e);
    assert(next_by(tw, lt[(p + 1) % nt]) == lt[((p + 1) % nt + 1) % nt]);
    assert(lt[(p + 2) % nt] == tp);
    assert(next_by(tw, lt[(p + 2) % nt]) == lt[((p + 2) % nt + 1) % nt]);
    assert(next_by(tw, lb[q]) == lb[(q + 1) % nb]);
    assert(lb[(q + 1) % nb] == t);
    assert(next_by(tw, lb[(q + 1) % nb]) == lb[((q + 1) % nb + 1) % nb]);
    assert(lb[(q + 2) % nb] == ep);
    assert(next_by(tw, lb[(q + 2) % nb]) == lb[((q + 2) % nb + 1) % nb]);
    assert(nt >= 3) by {
        if nt == 1 {
            assert(lt[(p + 1) % nt] == lt[p]);
        } else if nt == 2 {
            assert(lt[(p + 2) % nt] == lt[p]);
        }
    }
    assert(nb >= 3) by {
        if nb == 1 {
            assert(lb[(q + 1) % nb] == lb[q]);
        } else if nb == 2 {
            assert(lb[(q + 2) % nb] == lb[q]);
        }
    }
    assert forall|i: int, j: int| 0 <= i < nt && 0 <= j < nb implies #[trigger] lt[i] != #[trigger] lb[j] by {
        assert(lt.contains(lt[i]) && lb.contains(lb[j]));
    }
    assert(next_by(tw2, lt[p]) == lb[(q + 3) % nb]);
    assert(next_by(tw2, lb[q]) == lt[(p + 3) % nt]);
    assert(edge_set(d2).contains(ent) && edge_set(d2).contains(tnt));
    assert forall|i: int| 0 <= i < nt && i != p && i != (p + 1) % nt && i != (p + 2) % nt
        implies tw2(#[trigger] lt[i]) == tw(lt[i]) && edge_set(d2).contains(lt[i]) by {
        let f = lt[i];
        assert(lt.contains(f));
        assert(bubble_of(vs, f).id == bt);
        assert(edge_set(d).contains(f));
        assert(f != ent && f != ept && f != tnt && f != tpt);
        assert(f != e && f != tp && f != en && f != ep && f != t && f != tn);
        if f.vertex.id == u {
            assert(f == e || f == en || f == ep);
        }
        if f.vertex.id == w {
            assert(f == t || f == tn || f == tp);
        }
    }
    assert forall|i: int| 0 <= i < nb && i != q && i != (q + 1) % nb && i != (q + 2) % nb
        implies tw2(#[trigger] lb[i]) == tw(lb[i]) && edge_set(d2).contains(lb[i]) by {
        let f = lb[i];
        assert(lb.contains(f));
        assert(bubble_of(vs, f).id == bb);
        assert(edge_set(d).contains(f));
        assert(f != ent && f != ept && f != tnt && f != tpt);
        assert(f != e && f != tp && f != en && f != ep && f != t && f != tn);
        if f.vertex.id == u {
            assert(f == e || f == en || f == ep);
        }
        if f.vertex.id == w {
            assert(f == t || f == tn || f == tp);
        }
    }
    assert(closes_by(tw2, d, ent));
    lemma_splice(tw, tw2, d2, d, lt, lb, p, q);
    lemma_orbit_wider(tw2, d2, d, ent, (nt + nb - 4) as nat);
}

/// After the merge, the bubble of the edge after `x`, one of the wall's
/// two edges, loses that edge, and the walk from the twin of the edge
/// before `x` goes round it. When that bubble is also the bubble after the
/// other edge of the wall, it loses that edge as well.
#[verifier::rlimit(30)]
proof fn lemma_merge_side(vs: Map<u64, Vertex>, bs: Map<u64, Bubble>, e: EdgeKey, x: EdgeKey)
    requires
        merge_fresh(vs, bs, e),
        x == e || x == twin_of(vs, e),
    ensures
        ({
            let t = twin_of(vs, e);
            let d2 = vs.dom().remove(e.vertex.id).remove(t.vertex.id);
            let tw2 = remove_twins(vs, e);
            let xn = x.spec_next_on_vertex();
            let yn = (if x == e { t } else { e }).spec_next_on_vertex();
            let ring = bubble_of(vs, xn) == bubble_of(vs, yn);
            let s = twin_of(vs, x.spec_prev_on_vertex());
            let l = bs[bubble_of(vs, xn).id].edges@;
            &&& closes_by_at(tw2, d2, s, (if ring { l.len() - 2 } else { l.len() - 1 }) as nat)
            &&& orbit_by(tw2, vs.dom(), s) == orbit_by(tw2, d2, s)
            &&& orbit_by(tw2, d2, s).no_duplicates()
            &&& forall|f: EdgeKey| #![trigger orbit_by(tw2, d2, s).contains(f)] #![trigger l.contains(f)]
                orbit_by(tw2, d2, s).contains(f) <==> (l.contains(f) && f != xn && !(ring && f == yn))
        }),
{
    let t = twin_of(vs, e);
    let yn = (if x == e { t } else { e }).spec_next_on_vertex();
    if bubble_of(vs, x.spec_next_on_vertex()) == bubble_of(vs, yn) {
        lemma_merge_ring_side(vs, bs, e, x);
    } else {
        lemma_merge_one_side(vs, bs, e, x);
    }
}

/// The case of `lemma_merge_side` where the bubbles after the wall's two
/// edges differ.
#[verifier::rlimit(30)]
proof fn lemma_merge_one_side(vs: Map<u64, Vertex>, bs: Map<u64, Bubble>, e: EdgeKey, x: EdgeKey)
    requires
        merge_fresh(vs, bs, e),
        x == e || x == twin_of(vs, e),
        bubble_of(vs, x.spec_next_on_vertex())
            != bubble_of(vs, (if x == e { twin_of(vs, e) } else { e }).spec_next_on_vertex()),
    ensures
        ({
            let t = twin_of(vs, e);
            let d2 = vs.dom().remove(e.vertex.id).remove(t.vertex.id);
            let tw2 = remove_twins(vs, e);
            let xn = x.spec_next_on_vertex();
            let s = twin_of(vs, x.spec_prev_on_vertex());
            let l = bs[bubble_of(vs, xn).id].edges@;
            &&& closes_by_at(tw2, d2, s, (l.len() - 1) as nat)
            &&& orbit_by(tw2, vs.dom(), s) == orbit_by(tw2, d2, s)
            &&& orbit_by(tw2, d2, s).no_duplicates()
            &&& forall|f: EdgeKey| #![trigger orbit_by(tw2, d2, s).contains(f)] #![trigger l.contains(f)]
                orbit_by(tw2, d2, s).contains(f) <==> (l.contains(f) && f != xn)
        }),
{
    lemma_merge_start(vs, bs, e);
    lemma_merge_around(vs, bs, e);
    reveal(lists_follow);
    let d = vs.dom();
    let tw = twins(vs);
    let t = tw(e);
    let u = e.vertex.id;
    let w = t.vertex.id;
    let d2 = d.remove(u).remove(w);
    let tw2 = remove_twins(vs, e);
    let en = e.spec_next_on_vertex();
    let ep = e.spec_prev_on_vertex();
    let tn = t.spec_next_on_vertex();
    let tp = t.spec_prev_on_vertex();
    let ent = tw(en);
    let ept = tw(ep);
    let tnt = tw(tn);
    let tpt = tw(tp);
    let xn = x.spec_next_on_vertex();
    let s = tw(x.spec_prev_on_vertex());
    let b = bubble_of(vs, xn).id;
    let l = bs[b].edges@;
    assert(bs.dom().contains(b));
    assert(list_good(tw, d, l));
    assert(bubble_of(vs, s).id == b);
    assert(l.contains(s));
    let n = l.len() as int;
    let a = choose|i: int| 0 <= i < n && l[i] == s;
    lemma_wrap(a + 1, n);
    assert(next_by(tw, l[a]) == l[(a + 1) % n]);
    assert(l[(a + 1) % n] == xn);
    assert(n >= 2) by {
        if n == 1 {
            assert(l[(a + 1) % n] == l[a]);
        }
    }
    assert forall|i: int| 0 <= i < n && i != (a + 1) % n implies edge_set(d2).contains(#[trigger] l[i]) by {
        let f = l[i];
        assert(l.contains(f));
        assert(bubble_of(vs, f).id == b);
        assert(edge_set(d).contains(f));
        assert(f != xn);
        assert(f != e && f != tp && f != ep && f != t);
        assert(f != en && f != tn);
        if f.vertex.id == u {
            assert(f == e || f == en || f == ep);
        }
        if f.vertex.id == w {
            assert(f == t || f == tn || f == tp);
        }
    }
    assert forall|i: int| 0 <= i < n && i != a && i != (a + 1) % n implies tw2(#[trigger] l[i]) == tw(l[i]) by {
        let f = l[i];
        assert(l.contains(f));
        assert(bubble_of(vs, f).id == b);
        assert(f != ent && f != ept && f != tnt && f != tpt);
    }
    assert(next_by(tw2, l[a]) == next_by(tw, l[(a + 1) % n]));
    assert(closes_by(tw2, d, s));
    lemma_shrink(tw, tw2, d2, d, l, a);
    lemma_shrunk_facts(l, a);
    lemma_orbit_wider(tw2, d2, d, s, (n - 1) as nat);
}

/// The case of `lemma_merge_side` where one bubble lies after both of
/// the wall's edges: its boundary loses both, and the walk from the twin
/// of the edge before `x` goes round what is left.
#[verifier::rlimit(60)]
#[verifier::spinoff_prover]
proof fn lemma_merge_ring_side(vs: Map<u64, Vertex>, bs: Map<u64, Bubble>, e: EdgeKey, x: EdgeKey)
    requires
        merge_fresh(vs, bs, e),
        x == e || x == twin_of(vs, e),
        bubble_of(vs, x.spec_next_on_vertex())
            == bubble_of(vs, (if x == e { twin_of(vs, e) } else { e }).spec_next_on_vertex()),
    ensures
        ({
            let t = twin_of(vs, e);
            let d2 = vs.dom().remove(e.vertex.id).remove(t.vertex.id);
            let tw2 = remove_twins(vs, e);
            let xn = x.spec_next_on_vertex();
            let yn = (if x == e { t } else { e }).spec_next_on_vertex();
            let s = twin_of(vs, x.spec_prev_on_vertex());
            let l = bs[bubble_of(vs, xn).id].edges@;
            &&& closes_by_at(tw2, d2, s, (l.len() - 2) as nat)
            &&& orbit_by(tw2, vs.dom(), s) == orbit_by(tw2, d2, s)
            &&& orbit_by(tw2, d2, s).no_duplicates()
            &&& forall|f: EdgeKey| #![trigger orbit_by(tw2, d2, s).contains(f)] #![trigger l.contains(f)]
                orbit_by(tw2, d2, s).contains(f) <==> (l.contains(f) && f != xn && f != yn)
        }),
{
    lemma_merge_start(vs, bs, e);
    lemma_merge_around(vs, bs, e);
    reveal(lists_follow);
    let d = vs.dom();
    let tw = twins(vs);
    let t = tw(e);
    let u = e.vertex.id;
    let w = t.vertex.id;
    let d2 = d.remove(u).remove(w);
    let tw2 = remove_twins(vs, e);
    let en = e.spec_next_on_vertex();
    let ep = e.spec_prev_on_vertex();
    let tn = t.spec_next_on_vertex();
    let tp = t.spec_prev_on_vertex();
    let ent = tw(en);
    let ept = tw(ep);
    let tnt = tw(tn);
    let tpt = tw(tp);
    let y = if x == e { t } else { e };
    let xn = x.spec_next_on_vertex();
    let yn = y.spec_next_on_vertex();
    let s = tw(x.spec_prev_on_vertex());
    let s2 = tw(y.spec_prev_on_vertex());
    assert((s == ept && s2 == tpt && xn == en && yn == tn) || (s == tpt && s2 == ept && xn == tn && yn == en));
    let b = bubble_of(vs, xn).id;
    let l = bs[b].edges@;
    assert(bs.dom().contains(b));
    assert(list_good(tw, d, l));
    assert(bubble_of(vs, s).id == b && bubble_of(vs, s2).id == b);
    assert(l.contains(s) && l.contains(s2));
    let n = l.len() as int;
    let a = choose|i: int| 0 <= i < n && l[i] == s;
    let c = choose|i: int| 0 <= i < n && l[i] == s2;
    lemma_wrap(a + 1, n);
    lemma_wrap(c + 1, n);
    assert(next_by(tw, l[a]) == l[(a + 1) % n]);
    assert(next_by(tw, l[c]) == l[(c + 1) % n]);
    assert(l[(a + 1) % n] == xn && l[(c + 1) % n] == yn);
    assert(s != s2 && s != yn && s2 != xn && xn != yn);
    assert(a != c && a != (c + 1) % n && c != (a + 1) % n && (a + 1) % n != (c + 1) % n);
    assert(n >= 4);
    assert forall|i: int| 0 <= i < n && i != (a + 1) % n && i != (c + 1) % n implies edge_set(d2).contains(#[trigger] l[i]) by {
        let f = l[i];
        assert(l.contains(f));
        assert(bubble_of(vs, f).id == b);
        assert(edge_set(d).contains(f));
        assert(f != xn && f != yn);
        assert(f != e && f != tp && f != ep && f != t);
        if f.vertex.id == u {
            assert(f == e || f == en || f == ep);
        }
        if f.vertex.id == w {
            assert(f == t || f == tn || f == tp);
        }
    }
    assert forall|i: int| 0 <= i < n && i != a && i != c && i != (a + 1) % n && i != (c + 1) % n
        implies tw2(#[trigger] l[i]) == tw(l[i]) by {
        let f = l[i];
        assert(l.contains(f));
        assert(bubble_of(vs, f).id == b);
        assert(f != s && f != s2);
        assert(f != ent && f != ept && f != tnt && f != tpt);
    }
    assert(next_by(tw2, l[a]) == next_by(tw, l[(a + 1) % n]));
    assert(next_by(tw2, l[c]) == next_by(tw, l[(c + 1) % n]));
    assert(closes_by(tw2, d, s));
    lemma_double_shrink(tw, tw2, d2, d, l, a, c);
    lemma_orbit_wider(tw2, d2, d, s, (n - 2) as nat);
}

/// After the merge, the bubble each edge claims and the list of each
/// bubble: the near bubble and the two at the wall's ends get their new
/// cycles, and everything else stays.
proof fn lemma_merge_labels(vs: Map<u64, Vertex>, bs: Map<u64, Bubble>, e: EdgeKey, vs2: Map<u64, Vertex>, bs2: Map<u64, Bubble>)
    requires
        merge_fresh(vs, bs, e),
        merged(vs, bs, e, vs2, bs2),
    ensures
        ({
            let t = twin_of(vs, e);
            let d = vs.dom();
            let tw2 = remove_twins(vs, e);
            let ot = orbit_by(tw2, d, twin_of(vs, e.spec_next_on_vertex()));
            let or = orbit_by(tw2, d, twin_of(vs, e.spec_prev_on_vertex()));
            let ol = orbit_by(tw2, d, twin_of(vs, t.spec_prev_on_vertex()));
            let top = bubble_of(vs, e);
            let right = bubble_of(vs, e.spec_next_on_vertex());
            let left = bubble_of(vs, t.spec_next_on_vertex());
            &&& forall|f: EdgeKey| #[trigger] has_edge(vs2, f) ==> bubble_of(vs2, f) == (
                if ol.contains(f) { left } else if or.contains(f) { right } else if ot.contains(f) { top }
                else { bubble_of(vs, f) })
            &&& forall|b: u64| #[trigger] bs2.dom().contains(b) ==> bs2[b].edges@ == (
                if b == left.id { ol } else if b == right.id { or } else if b == top.id { ot } else { bs[b].edges@ })
        }),
{
    lemma_merge_start(vs, bs, e);
    let t = twin_of(vs, e);
    let d = vs.dom();
    let tw2 = remove_twins(vs, e);
    let ot = orbit_by(tw2, d, twin_of(vs, e.spec_next_on_vertex()));
    let or = orbit_by(tw2, d, twin_of(vs, e.spec_prev_on_vertex()));
    let ol = orbit_by(tw2, d, twin_of(vs, t.spec_prev_on_vertex()));
    let top = bubble_of(vs, e);
    let right = bubble_of(vs, e.spec_next_on_vertex());
    let left = bubble_of(vs, t.spec_next_on_vertex());
    let chain = remove_chain(vs, e);
    assert(chain =~= seq![(top, ot), (right, or), (left, ol)]);
    reveal_with_fuel(chain_label, 4);
    reveal_with_fuel(chain_list, 4);
    assert(chain.drop_last() =~= seq![(top, ot), (right, or)]);
    assert(chain.drop_last().drop_last() =~= seq![(top, ot)]);
    assert(chain.drop_last().drop_last().drop_last() =~= Seq::<(BubbleKey, Seq<EdgeKey>)>::empty());
    assert(top.id != right.id && top.id != left.id);
    assert forall|b: u64| #[trigger] bs2.dom().contains(b) implies bs2[b].edges@ == (
        if b == left.id { ol } else if b == right.id { or } else if b == top.id { ot } else { bs[b].edges@ }) by {
        assert(bs2[b].edges@ == chain_list(chain, b, bs[b].edges@));
    }
}

/// The setting of the proof that a merge keeps the invariants: a graph
/// that keeps them and offers the facts about its lists, a wall as above,
/// and the graph after the merge.
pub open spec fn merge_setting(vs: Map<u64, Vertex>, bs: Map<u64, Bubble>, e: EdgeKey, vs2: Map<u64, Vertex>, bs2: Map<u64, Bubble>) -> bool {
    &&& sane(vs, bs)
    &&& merge_fresh(vs, bs, e)
    &&& merged(vs, bs, e, vs2, bs2)
}

/// After the merge, an edge of the list of bubble `b` is an edge of the
/// graph and claims `b`.
#[verifier::rlimit(60)]
#[verifier::spinoff_prover]
proof fn lemma_merge_claim_one(
    vs: Map<u64, Vertex>,
    bs: Map<u64, Bubble>,
    e: EdgeKey,
    vs2: Map<u64, Vertex>,
    bs2: Map<u64, Bubble>,
    b: u64,
    f: EdgeKey,
)
    requires
        merge_setting(vs, bs, e, vs2, bs2),
        bs2.dom().contains(b),
        bs2[b].edges@.contains(f),
    ensures
        has_edge(vs2, f),
        bubble_of(vs2, f).id == b,
{
    lemma_merge_around(vs, bs, e);
    lemma_merge_top(vs, bs, e);
    lemma_merge_side(vs, bs, e, e);
    lemma_merge_side(vs, bs, e, twin_of(vs, e));
    lemma_merge_labels(vs, bs, e, vs2, bs2);
    reveal(lists_follow);
    let d = vs.dom();
    let tw = twins(vs);
    let tw2 = remove_twins(vs, e);
    let t = tw(e);
    let u = e.vertex.id;
    let w = t.vertex.id;
    let en = e.spec_next_on_vertex();
    let ep = e.spec_prev_on_vertex();
    let tn = t.spec_next_on_vertex();
    let tp = t.spec_prev_on_vertex();
    let ot = orbit_by(tw2, d, tw(en));
    let or = orbit_by(tw2, d, tw(ep));
    let ol = orbit_by(tw2, d, tw(tp));
    let top = bubble_of(vs, e).id;
    let bottom = bubble_of(vs, t).id;
    let right = bubble_of(vs, en).id;
    let left = bubble_of(vs, tn).id;
    let lt = bs[top].edges@;
    let lb = bs[bottom].edges@;
    let lr = bs[right].edges@;
    let ll = bs[left].edges@;
    assert(bs2.dom() == bs.dom().remove(bottom));
    assert(vs2.dom() == d.remove(u).remove(w));
    assert(bs.dom().contains(b));
    let l = bs[b].edges@;
    let lo: Seq<EdgeKey> = if b == left {
        ll
    } else if b == right {
        lr
    } else if b == top {
        if lt.contains(f) { lt } else { lb }
    } else {
        l
    };
    if b == left {
        assert(ol.contains(f));
        assert(ll.contains(f) && f != tn);
        assert(bubble_of(vs, f).id == left);
    } else if b == right {
        assert(or.contains(f));
        assert(lr.contains(f) && f != en);
        assert(bubble_of(vs, f).id == right);
        assert(!ll.contains(f));
        assert(!ol.contains(f));
    } else if b == top {
        assert(ot.contains(f));
        if lt.contains(f) {
            assert(bubble_of(vs, f).id == top);
        } else {
            assert(lb.contains(f));
            assert(bubble_of(vs, f).id == bottom);
        }
        assert(!ll.contains(f) && !lr.contains(f));
        assert(!ol.contains(f) && !or.contains(f));
    } else {
        assert(l.contains(f));
        assert(bubble_of(vs, f).id == b);
        assert(!ll.contains(f) && !lr.contains(f) && !lt.contains(f) && !lb.contains(f));
        assert(!ol.contains(f) && !or.contains(f) && !ot.contains(f));
    }
    assert(lo.contains(f));
    let bo = bubble_of(vs, f).id;
    assert(bs.dom().contains(bo) && bs[bo].edges@ == lo);
    assert(list_good(tw, d, lo));
    let i = choose|i: int| 0 <= i < lo.len() && lo[i] == f;
    assert(edge_set(d).contains(lo[i]));
    assert(f != e && f != en && f != ep && f != t && f != tn && f != tp);
    if f.vertex.id == u {
        assert(f == e || f == en || f == ep);
    }
    if f.vertex.id == w {
        assert(f == t || f == tn || f == tp);
    }
    assert(has_edge(vs2, f));
}

/// After the merge, each edge of each list claims the list's bubble.
proof fn lemma_merge_claims(vs: Map<u64, Vertex>, bs: Map<u64, Bubble>, e: EdgeKey, vs2: Map<u64, Vertex>, bs2: Map<u64, Bubble>)
    requires
        merge_setting(vs, bs, e, vs2, bs2),
    ensures
        forall|b: u64, f: EdgeKey| bs2.dom().contains(b) && #[trigger] bs2[b].edges@.contains(f) ==>
            has_edge(vs2, f) && bubble_of(vs2, f).id == b,
{
    assert forall|b: u64, f: EdgeKey| bs2.dom().contains(b) && #[trigger] bs2[b].edges@.contains(f) implies
        has_edge(vs2, f) && bubble_of(vs2, f).id == b by {
        lemma_merge_claim_one(vs, bs, e, vs2, bs2, b, f);
    }
}

/// After the merge, a position of the list of a bubble that the merge
/// leaves alone is in order.
#[verifier::rlimit(40)]
#[verifier::spinoff_prover]
proof fn lemma_merge_untouched(
    vs: Map<u64, Vertex>,
    bs: Map<u64, Bubble>,
    e: EdgeKey,
    vs2: Map<u64, Vertex>,
    bs2: Map<u64, Bubble>,
    b: u64,
    i: int,
)
    requires
        merge_setting(vs, bs, e, vs2, bs2),
        bs.dom().contains(b),
        b != bubble_of(vs, e).id,
        b != bubble_of(vs, twin_of(vs, e)).id,
        b != bubble_of(vs, e.spec_next_on_vertex()).id,
        b != bubble_of(vs, twin_of(vs, e).spec_next_on_vertex()).id,
        bs2[b].edges@ == bs[b].edges@,
        0 <= i < bs[b].edges@.len(),
        bubble_of(vs2, bs[b].edges@[i]).id == b,
    ensures
        boundary_ok(vs2, bs2, b, i),
{
    lemma_merge_start(vs, bs, e);
    lemma_merge_around(vs, bs, e);
    reveal(lists_follow);
    let d = vs.dom();
    let tw = twins(vs);
    let tw2 = remove_twins(vs, e);
    let t = tw(e);
    let u = e.vertex.id;
    let w = t.vertex.id;
    let en = e.spec_next_on_vertex();
    let ep = e.spec_prev_on_vertex();
    let tn = t.spec_next_on_vertex();
    let tp = t.spec_prev_on_vertex();
    let ent = tw(en);
    let ept = tw(ep);
    let tnt = tw(tn);
    let tpt = tw(tp);
    let l = bs[b].edges@;
    let f = l[i];
    assert(list_good(tw, d, l));
    assert(edge_set(d).contains(f));
    assert(l.contains(f));
    assert(bubble_of(vs, f).id == b);
    assert(f != ent && f != ept && f != tnt && f != tpt);
    assert(f != e && f != en && f != ep && f != t && f != tn && f != tp);
    let g = tw(f);
    assert(edge_set(d).contains(g) && tw(g) == f);
    assert(g != ent && g != ept && g != tnt && g != tpt);
    assert(g != e && g != en && g != ep && g != t && g != tn && g != tp);
    if f.vertex.id == u {
        assert(f == e || f == en || f == ep);
    }
    if f.vertex.id == w {
        assert(f == t || f == tn || f == tp);
    }
    if g.vertex.id == u {
        assert(g == e || g == en || g == ep);
    }
    if g.vertex.id == w {
        assert(g == t || g == tn || g == tp);
    }
    assert(tw2(f) == g && tw2(g) == f);
    assert(vs2.dom() == d.remove(u).remove(w));
    assert(twins_are(vs2, tw2));
    assert(has_edge(vs2, f) && has_edge(vs2, g));
    assert(twin_of(vs2, f) == g);
    assert(twin_of(vs2, g) == f);
    assert(next_by(tw, l[i]) == l[(i + 1) % (l.len() as int)]);
    assert(next_edge(vs2, f) == next_by(tw, f));
}

/// After the merge, every position of the list of bubble `b` is in order.
#[verifier::rlimit(40)]
#[verifier::spinoff_prover]
proof fn lemma_merge_boundary_one(
    vs: Map<u64, Vertex>,
    bs: Map<u64, Bubble>,
    e: EdgeKey,
    vs2: Map<u64, Vertex>,
    bs2: Map<u64, Bubble>,
    b: u64,
)
    requires
        merge_setting(vs, bs, e, vs2, bs2),
        bs2.dom().contains(b),
        forall|b2: u64, f: EdgeKey| bs2.dom().contains(b2) && #[trigger] bs2[b2].edges@.contains(f) ==>
            has_edge(vs2, f) && bubble_of(vs2, f).id == b2,
    ensures
        forall|i: int| 0 <= i < bs2[b].edges@.len() ==> #[trigger] boundary_ok(vs2, bs2, b, i),
{
    lemma_merge_start(vs, bs, e);
    lemma_merge_top(vs, bs, e);
    lemma_merge_side(vs, bs, e, e);
    lemma_merge_side(vs, bs, e, twin_of(vs, e));
    lemma_merge_labels(vs, bs, e, vs2, bs2);
    let t = twin_of(vs, e);
    let d2 = vs.dom().remove(e.vertex.id).remove(t.vertex.id);
    let tw2 = remove_twins(vs, e);
    let top = bubble_of(vs, e).id;
    let bottom = bubble_of(vs, t).id;
    let right = bubble_of(vs, e.spec_next_on_vertex()).id;
    let left = bubble_of(vs, t.spec_next_on_vertex()).id;
    assert(vs2.dom() == d2 && twins_are(vs2, tw2));
    assert(bs2.dom() == bs.dom().remove(bottom));
    assert(bs.dom().contains(b));
    if b == left {
        let m: int = if right == left { bs[left].edges@.len() - 2 } else { bs[left].edges@.len() - 1 };
        lemma_orbit_list_ok(vs2, bs2, tw2, twin_of(vs, t.spec_prev_on_vertex()), m as nat, b);
    } else if b == right {
        lemma_orbit_list_ok(vs2, bs2, tw2, twin_of(vs, e.spec_prev_on_vertex()), (bs[right].edges@.len() - 1) as nat, b);
    } else if b == top {
        lemma_orbit_list_ok(vs2, bs2, tw2, twin_of(vs, e.spec_next_on_vertex()),
            (bs[top].edges@.len() + bs[bottom].edges@.len() - 4) as nat, b);
    } else {
        assert(bs2[b].edges@ == bs[b].edges@);
        assert forall|i: int| 0 <= i < bs2[b].edges@.len() implies #[trigger] boundary_ok(vs2, bs2, b, i) by {
            assert(bs2[b].edges@.contains(bs[b].edges@[i]));
            lemma_merge_untouched(vs, bs, e, vs2, bs2, b, i);
        }
    }
}

/// After the merge, the edge `f` is in some list.
#[verifier::rlimit(60)]
#[verifier::spinoff_prover]
proof fn lemma_merge_listed_one(vs: Map<u64, Vertex>, bs: Map<u64, Bubble>, e: EdgeKey, vs2: Map<u64, Vertex>, bs2: Map<u64, Bubble>, f: EdgeKey)
    requires
        merge_setting(vs, bs, e, vs2, bs2),
        has_edge(vs2, f),
    ensures
        listed(bs2, f),
{
    lemma_merge_around(vs, bs, e);
    lemma_merge_top(vs, bs, e);
    lemma_merge_side(vs, bs, e, e);
    lemma_merge_side(vs, bs, e, twin_of(vs, e));
    lemma_merge_labels(vs, bs, e, vs2, bs2);
    reveal(lists_follow);
    let d = vs.dom();
    let tw = twins(vs);
    let tw2 = remove_twins(vs, e);
    let t = tw(e);
    let u = e.vertex.id;
    let w = t.vertex.id;
    let en = e.spec_next_on_vertex();
    let ep = e.spec_prev_on_vertex();
    let tn = t.spec_next_on_vertex();
    let tp = t.spec_prev_on_vertex();
    let ot = orbit_by(tw2, d, tw(en));
    let or = orbit_by(tw2, d, tw(ep));
    let ol = orbit_by(tw2, d, tw(tp));
    let top = bubble_of(vs, e).id;
    let bottom = bubble_of(vs, t).id;
    let right = bubble_of(vs, en).id;
    let left = bubble_of(vs, tn).id;
    assert(vs2.dom() == d.remove(u).remove(w));
    assert(bs2.dom() == bs.dom().remove(bottom));
    assert(has_edge(vs, f));
    assert(f.vertex.id != u && f.vertex.id != w);
    assert(f != e && f != en && f != ep && f != t && f != tn && f != tp);
    let bf = bubble_of(vs, f).id;
    assert(bs.dom().contains(bf) && bs[bf].edges@.contains(f));
    let b: u64 = if bf == bottom { top } else { bf };
    if bf == left {
        assert(ol.contains(f));
    } else if bf == right {
        assert(or.contains(f));
    } else if bf == top {
        assert(ot.contains(f));
    } else if bf == bottom {
        assert(ot.contains(f));
    } else {
        assert(bs2[bf].edges@ == bs[bf].edges@);
    }
    assert(bs2.dom().contains(b));
    assert(bs2[b].edges@.contains(f));
    let l = bs2[b].edges@;
    let i = choose|i: int| 0 <= i < l.len() && l[i] == f;
    assert(bs2[b].edges@[i] == f);
}

/// After the merge, the lists keep their invariants.
#[verifier::rlimit(40)]
proof fn lemma_merge_listing(vs: Map<u64, Vertex>, bs: Map<u64, Bubble>, e: EdgeKey, vs2: Map<u64, Vertex>, bs2: Map<u64, Bubble>)
    requires
        merge_setting(vs, bs, e, vs2, bs2),
        exists|o: u64| sole_open_air(bs2, o),
    ensures
        listing_ok(vs2, bs2),
{
    let d = vs.dom();
    lemma_merge_claims(vs, bs, e, vs2, bs2);
    assert forall|b: u64, i: int| bs2.dom().contains(b) && 0 <= i < bs2[b].edges@.len() implies
        #[trigger] boundary_ok(vs2, bs2, b, i) by {
        lemma_merge_boundary_one(vs, bs, e, vs2, bs2, b);
    }
    assert forall|f: EdgeKey| #[trigger] has_edge(vs2, f) implies listed(bs2, f) by {
        lemma_merge_listed_one(vs, bs, e, vs2, bs2, f);
    }
    lemma_merge_start(vs, bs, e);
    lemma_merge_top(vs, bs, e);
    lemma_merge_side(vs, bs, e, e);
    lemma_merge_side(vs, bs, e, twin_of(vs, e));
    lemma_merge_labels(vs, bs, e, vs2, bs2);
    reveal(lists_follow);
    let t = twin_of(vs, e);
    let d2 = d.remove(e.vertex.id).remove(t.vertex.id);
    let tw2 = remove_twins(vs, e);
    let top = bubble_of(vs, e).id;
    let bottom = bubble_of(vs, t).id;
    let right = bubble_of(vs, e.spec_next_on_vertex()).id;
    let left = bubble_of(vs, t.spec_next_on_vertex()).id;
    let st = twin_of(vs, e.spec_next_on_vertex());
    let sr = twin_of(vs, e.spec_prev_on_vertex());
    let sl = twin_of(vs, t.spec_prev_on_vertex());
    lemma_closes_by_unique(tw2, d2, st, (bs[top].edges@.len() + bs[bottom].edges@.len() - 4) as nat);
    let mr: int = if right == left { bs[right].edges@.len() - 2 } else { bs[right].edges@.len() - 1 };
    let ml: int = if right == left { bs[left].edges@.len() - 2 } else { bs[left].edges@.len() - 1 };
    lemma_closes_by_unique(tw2, d2, sr, mr as nat);
    lemma_closes_by_unique(tw2, d2, sl, ml as nat);
    assert(bs2.dom() == bs.dom().remove(bottom));
    assert forall|b: u64| #[trigger] bs2.dom().contains(b) implies bs2[b].edges@.len() > 0 by {
        assert(bs.dom().contains(b));
        assert(list_good(twins(vs), d, bs[b].edges@));
    }
    assert forall|b1: u64, i1: int, b2: u64, i2: int|
        bs2.dom().contains(b1) && 0 <= i1 < bs2[b1].edges@.len() && bs2.dom().contains(b2) && 0 <= i2 < bs2[b2].edges@.len()
        && (b1 != b2 || i1 != i2) implies #[trigger] bs2[b1].edges@[i1] != #[trigger] bs2[b2].edges@[i2] by {
        assert(boundary_ok(vs2, bs2, b1, i1) && boundary_ok(vs2, bs2, b2, i2));
        if b1 == b2 {
            assert(bs.dom().contains(b1));
            assert(list_good(twins(vs), d, bs[b1].edges@));
            assert(bs2[b1].edges@.no_duplicates());
        }
    }
}

/// The merging step of a removal keeps the invariants of the graph: in a
/// graph that keeps them, merging across a wall that joins two different
/// vertices whose outer neighbors lie elsewhere and differ, with bubbles
/// around it that differ as a removal needs (the bubbles at its two ends
/// may be one) and walks that close as the merge needs, leaves a graph
/// that keeps them too.
pub proof fn law_merge_keeps_sane(vs: Map<u64, Vertex>, bs: Map<u64, Bubble>, e: EdgeKey, vs2: Map<u64, Vertex>, bs2: Map<u64, Bubble>)
    requires
        keys_valid(vs, bs),
        sane(vs, bs),
        vs.dom().finite(),
        bs.dom().finite(),
        has_edge(vs, e),
        merge_apart(vs, e),
        merge_sides(vs, e),
        remove_links_ok(vs, e),
        merged(vs, bs, e, vs2, bs2),
    ensures
        sane(vs2, bs2),
{
    lemma_sane_lists_follow(vs, bs);
    assert(merge_setting(vs, bs, e, vs2, bs2));
    lemma_merge_around(vs, bs, e);
    reveal(lists_follow);
    let t = twin_of(vs, e);
    assert(has_edge(vs, t));
    assert(bs.dom().contains(bubble_of(vs, e).id) && bs.dom().contains(bubble_of(vs, t).id));
    let o = choose|o: u64| sole_open_air(bs, o);
    law_merge_keeps_counts(vs, bs, e, vs2, bs2, o);
    lemma_merge_listing(vs, bs, e, vs2, bs2);
}

/// The near and far bubbles of the wall of `e` share no other wall, and
/// neither borders itself: the twin of every other edge of their two lists
/// lies on neither.
pub open spec fn merge_clean(vs: Map<u64, Vertex>, bs: Map<u64, Bubble>, e: EdgeKey) -> bool {
    let t = twin_of(vs, e);
    let lt = bs[bubble_of(vs, e).id].edges@;
    let lb = bs[bubble_of(vs, t).id].edges@;
    forall|f: EdgeKey| #![trigger lt.contains(f)] #![trigger lb.contains(f)]
        (lt.contains(f) || lb.contains(f)) && f != e && f != t ==>
        !lt.contains(twin_of(vs, f)) && !lb.contains(twin_of(vs, f))
}

/// After a clean merge, no wall has the merged bubble on both sides.
#[verifier::rlimit(40)]
proof fn lemma_merge_no_degenerate(vs: Map<u64, Vertex>, bs: Map<u64, Bubble>, e: EdgeKey, vs2: Map<u64, Vertex>, bs2: Map<u64, Bubble>)
    requires
        merge_setting(vs, bs, e, vs2, bs2),
        merge_clean(vs, bs, e),
        sane(vs2, bs2),
    ensures
        degenerate_edges(vs2, bs2, bubble_of(vs, e)).len() == 0,
{
    lemma_merge_start(vs, bs, e);
    lemma_merge_around(vs, bs, e);
    lemma_merge_top(vs, bs, e);
    lemma_merge_side(vs, bs, e, e);
    lemma_merge_side(vs, bs, e, twin_of(vs, e));
    lemma_merge_labels(vs, bs, e, vs2, bs2);
    lemma_merge_claims(vs, bs, e, vs2, bs2);
    reveal(lists_follow);
    let d = vs.dom();
    let tw = twins(vs);
    let tw2 = remove_twins(vs, e);
    let t = tw(e);
    let en = e.spec_next_on_vertex();
    let ep = e.spec_prev_on_vertex();
    let tn = t.spec_next_on_vertex();
    let tp = t.spec_prev_on_vertex();
    let ent = tw(en);
    let ept = tw(ep);
    let tnt = tw(tn);
    let tpt = tw(tp);
    let topk = bubble_of(vs, e);
    let top = topk.id;
    let bottom = bubble_of(vs, t).id;
    let right = bubble_of(vs, en).id;
    let left = bubble_of(vs, tn).id;
    let lt = bs[top].edges@;
    let lb = bs[bottom].edges@;
    let ot = orbit_by(tw2, d, ent);
    assert(bs2.dom() == bs.dom().remove(bottom));
    assert(bs2.dom().contains(top));
    assert(bs2[top].edges@ == ot);
    let pred = |f: EdgeKey| is_degenerate(vs2, topk, f);
    let deg = ot.filter(pred);
    assert(degenerate_edges(vs2, bs2, topk) == deg);
    if deg.len() > 0 {
        ot.lemma_filter_pred(pred, 0);
        let f = deg[0];
        assert(pred(f));
        ot.lemma_filter_contains_rev(pred, f);
        assert(ot.contains(f));
        assert(bs2[top].edges@.contains(f));
        assert(has_edge(vs2, f));
        let g = twin_of(vs2, f);
        assert(g == tw2(f));
        assert(bubble_of(vs2, g) == topk);
        assert(vs2.dom() == d.remove(e.vertex.id).remove(t.vertex.id));
        assert(has_edge(vs2, g)) by {
            assert(edge_set(vs2.dom()).contains(f));
        }
        let (b2, i2) = choose|b2: u64, i2: int| bs2.dom().contains(b2) && 0 <= i2 < bs2[b2].edges@.len()
            && #[trigger] bs2[b2].edges@[i2] == g;
        assert(boundary_ok(vs2, bs2, b2, i2));
        assert(b2 == top);
        assert(ot.contains(g));
        let lr = bs[right].edges@;
        let ll = bs[left].edges@;
        if f == ent {
            assert(g == ept);
            assert(lr.contains(ept));
            assert(bubble_of(vs, ept).id == right);
            if lt.contains(g) {
                assert(bubble_of(vs, g).id == top);
            }
            if lb.contains(g) {
                assert(bubble_of(vs, g).id == bottom);
            }
        } else if f == tnt {
            assert(g == tpt);
            if lt.contains(g) {
                assert(bubble_of(vs, g).id == top);
            }
            if lb.contains(g) {
                assert(bubble_of(vs, g).id == bottom);
            }
        } else {
            assert(f != ent && f != ept && f != tnt && f != tpt);
            assert(g == tw(f));
            assert(lt.contains(f) || lb.contains(f));
            assert(f != e && f != t);
            assert(!lt.contains(g) && !lb.contains(g));
        }
    }
}

/// A removal keeps the invariants of the graph when its merge is clean:
/// in a graph that keeps them, removing a wall whose reads and walks are
/// as the removal needs leaves a graph that keeps them too, when the
/// removal is refused, or when neither the top nor the bottom bubble has
/// only two edges and the two share no other wall and do not border
/// themselves.
pub proof fn law_clean_remove_keeps_sane(vs: Map<u64, Vertex>, bs: Map<u64, Bubble>, e: EdgeKey, vs2: Map<u64, Vertex>, bs2: Map<u64, Bubble>)
    requires
        keys_valid(vs, bs),
        sane(vs, bs),
        vs.dom().finite(),
        bs.dom().finite(),
        remove_reads_ok(vs, bs, e),
        has_edge(vs, e),
        !remove_blocked(vs, bs, e) ==> remove_case(vs, e) == 3 && merge_clean(vs, bs, e),
        remove_post(vs, bs, e, vs2, bs2),
    ensures
        sane(vs2, bs2),
{
    if !remove_blocked(vs, bs, e) {
        lemma_merge_apart(vs, bs, e);
        assert(merge_sides(vs, e));
        let (vm, bm) = choose|vm: Map<u64, Vertex>, bm: Map<u64, Bubble>|
            #[trigger] merged(vs, bs, e, vm, bm) && slides_post(vm, bm, degenerate_edges(vm, bm, bubble_of(vs, e)), vs2, bs2);
        law_merge_keeps_sane(vs, bs, e, vm, bm);
        lemma_sane_lists_follow(vs, bs);
        lemma_merge_no_degenerate(vs, bs, e, vm, bm);
        let es = degenerate_edges(vm, bm, bubble_of(vs, e));
        let states = choose|states: Seq<(Map<u64, Vertex>, Map<u64, Bubble>)>|
            #[trigger] slide_trace(states, es) && states[0] == (vm, bm) && states.last() == (vs2, bs2);
        assert(states.len() == 1);
    }
}

/// After the merge, the keys stay valid.
proof fn lemma_merge_keys_valid(vs: Map<u64, Vertex>, bs: Map<u64, Bubble>, e: EdgeKey, vs2: Map<u64, Vertex>, bs2: Map<u64, Bubble>)
    requires
        keys_valid(vs, bs),
        merge_setting(vs, bs, e, vs2, bs2),
    ensures
        keys_valid(vs2, bs2),
{
    lemma_merge_start(vs, bs, e);
    lemma_merge_claims(vs, bs, e, vs2, bs2);
    let t = twin_of(vs, e);
    let d2 = vs.dom().remove(e.vertex.id).remove(t.vertex.id);
    let tw2 = remove_twins(vs, e);
    assert(vs2.dom() == d2);
    assert(bs2.dom() == bs.dom().remove(bubble_of(vs, t).id));
    assert(twins_are(vs2, tw2));
    assert forall|k: u64| #[trigger] vs2.dom().contains(k) implies issued_key(k) by {
        assert(vs.dom().contains(k));
    }
    assert forall|k: u64| #[trigger] bs2.dom().contains(k) implies issued_key(k) by {
        assert(bs.dom().contains(k));
    }
    assert forall|f: EdgeKey| #[trigger] has_edge(vs2, f) implies
        twin_of(vs2, f).valid() && crate::slots::odd_version(twin_of(vs2, f).vertex.id) by {
        assert(edge_set(d2).contains(f));
        assert(edge_set(d2).contains(tw2(f)));
        assert(vs.dom().contains(tw2(f).vertex.id));
        assert(issued_key(tw2(f).vertex.id));
    }
    assert forall|b: u64, i: int| bs2.dom().contains(b) && 0 <= i < bs2[b].edges@.len() implies
        (#[trigger] bs2[b].edges@[i]).valid() && crate::slots::odd_version(bs2[b].edges@[i].vertex.id) by {
        let f = bs2[b].edges@[i];
        assert(bs2[b].edges@.contains(f));
        assert(has_edge(vs2, f));
        assert(vs.dom().contains(f.vertex.id));
        assert(issued_key(f.vertex.id));
    }
}

/// In a graph that keeps its invariants, an edge's twin exists and has
/// the edge as its twin, the next edge on a bubble's boundary claims the
/// same bubble, and the bubble across an edge is the bubble of the edge
/// before it at its vertex.
pub proof fn lemma_edge_facts(vs: Map<u64, Vertex>, bs: Map<u64, Bubble>, g: EdgeKey)
    requires
        keys_valid(vs, bs),
        sane(vs, bs),
        has_edge(vs, g),
    ensures
        has_edge(vs, twin_of(vs, g)),
        twin_of(vs, twin_of(vs, g)) == g,
        bubble_of(vs, next_edge(vs, g)) == bubble_of(vs, g),
        bubble_of(vs, g.spec_prev_on_vertex()) == bubble_of(vs, twin_of(vs, g)),
{
    lemma_edge_follows(vs, bs, g);
    let h = twin_of(vs, g);
    lemma_edge_follows(vs, bs, h);
}

/// The facts of `lemma_edge_facts` that one edge's list position gives.
proof fn lemma_edge_follows(vs: Map<u64, Vertex>, bs: Map<u64, Bubble>, g: EdgeKey)
    requires
        keys_valid(vs, bs),
        sane(vs, bs),
        has_edge(vs, g),
    ensures
        has_edge(vs, twin_of(vs, g)),
        twin_of(vs, twin_of(vs, g)) == g,
        bubble_of(vs, next_edge(vs, g)) == bubble_of(vs, g),
{
    assert(listed(bs, g));
    let (b, i) = choose|b: u64, i: int| bs.dom().contains(b) && 0 <= i < bs[b].edges@.len() && #[trigger] bs[b].edges@[i] == g;
    let n = bs[b].edges@.len() as int;
    assert(boundary_ok(vs, bs, b, i));
    assert(boundary_ok(vs, bs, b, (i + 1) % n));
}

/// A wall whose removal is not refused, in a graph that keeps its
/// invariants, joins two different vertices whose outer neighbors lie
/// elsewhere and differ, unless the top or the bottom bubble has only two
/// edges.
pub proof fn lemma_merge_apart(vs: Map<u64, Vertex>, bs: Map<u64, Bubble>, e: EdgeKey)
    requires
        keys_valid(vs, bs),
        sane(vs, bs),
        has_edge(vs, e),
        !remove_blocked(vs, bs, e),
        remove_case(vs, e) == 3,
    ensures
        merge_apart(vs, e),
{
    let t = twin_of(vs, e);
    let en = e.spec_next_on_vertex();
    let ep = e.spec_prev_on_vertex();
    lemma_edge_facts(vs, bs, e);
    lemma_edge_facts(vs, bs, en);
    lemma_edge_facts(vs, bs, ep);
    let tn = t.spec_next_on_vertex();
    let tp = t.spec_prev_on_vertex();
    lemma_edge_facts(vs, bs, t);
    lemma_edge_facts(vs, bs, tn);
    lemma_edge_facts(vs, bs, tp);
    assert(en.spec_prev_on_vertex() == e && ep.spec_prev_on_vertex() == en && e.spec_prev_on_vertex() == ep);
    assert(tn.spec_prev_on_vertex() == t && tp.spec_prev_on_vertex() == tn && t.spec_prev_on_vertex() == tp);
    assert(ep.spec_next_on_vertex() == e && tp.spec_next_on_vertex() == t);
}

/// A removal keeps the invariants of the graph: in a graph that keeps
/// them, removing a wall whose reads and walks are as the removal needs
/// leaves a graph that keeps them too, when the removal is refused, or
/// when the top and the bottom bubble do not both have only two edges and
/// each wall that the removal then slides, having the merged bubble on
/// both sides, is of a shape that the slide law covers.
pub proof fn law_remove_keeps_sane(vs: Map<u64, Vertex>, bs: Map<u64, Bubble>, e: EdgeKey, vs2: Map<u64, Vertex>, bs2: Map<u64, Bubble>)
    requires
        keys_valid(vs, bs),
        sane(vs, bs),
        vs.dom().finite(),
        bs.dom().finite(),
        remove_reads_ok(vs, bs, e),
        has_edge(vs, e),
        !remove_blocked(vs, bs, e) ==> !(remove_case(vs, e) == 1
            && e.spec_prev_on_vertex() == twin_of(vs, twin_of(vs, e).spec_next_on_vertex())),
        forall|vm: Map<u64, Vertex>, bm: Map<u64, Bubble>| #[trigger] merged(vs, bs, e, vm, bm) ==>
            slides_tame(vm, bm, degenerate_edges(vm, bm, bubble_of(vs, e))),
        remove_post(vs, bs, e, vs2, bs2),
    ensures
        sane(vs2, bs2),
        keys_valid(vs2, bs2),
{
    if !remove_blocked(vs, bs, e) {
        let (vm, bm) = choose|vm: Map<u64, Vertex>, bm: Map<u64, Bubble>|
            #[trigger] merged(vs, bs, e, vm, bm) && slides_post(vm, bm, degenerate_edges(vm, bm, bubble_of(vs, e)), vs2, bs2);
        assert(merge_sides(vs, e));
        if remove_case(vs, e) == 3 {
            lemma_merge_apart(vs, bs, e);
            lemma_sane_lists_follow(vs, bs);
            assert(pairs_up(twins(vs), vs.dom())) by {
                reveal(lists_follow);
            }
            lemma_merge_pairs(vs, e);
            law_merge_keeps_sane(vs, bs, e, vm, bm);
            lemma_sane_lists_follow(vs, bs);
            assert(merge_setting(vs, bs, e, vm, bm));
            lemma_merge_keys_valid(vs, bs, e, vm, bm);
        } else if remove_case(vs, e) == 1 {
            lemma_digon_apart(vs, bs, e);
            law_digon_merge_keeps_sane(vs, bs, e, vm, bm);
        } else {
            lemma_lower_digon_apart(vs, bs, e);
            law_lower_digon_merge_keeps_sane(vs, bs, e, vm, bm);
        }
        law_slides_keep_sane(vm, bm, degenerate_edges(vm, bm, bubble_of(vs, e)), vs2, bs2);
    }
}

/// Slides can be made in turn on a graph of at most 333 vertices that
/// keeps its invariants, when the walls slid exist and each slide, in the
/// graph the earlier ones made, is of a shape that the slide law covers.
pub proof fn lemma_slides_ready(vs: Map<u64, Vertex>, bs: Map<u64, Bubble>, es: Seq<EdgeKey>)
    requires
        keys_valid(vs, bs),
        sane(vs, bs),
        vs.dom().finite(),
        3 * vs.dom().len() <= 999,
        forall|i: int| 0 <= i < es.len() ==> has_edge(vs, #[trigger] es[i]),
        slides_tame(vs, bs, es),
    ensures
        slides_ok(vs, bs, es),
    decreases es.len(),
{
    if es.len() > 0 {
        let e = es[0];
        assert(has_edge(vs, e));
        lemma_edge_facts(vs, bs, e);
        let t = twin_of(vs, e);
        lemma_edge_facts(vs, bs, e.spec_prev_on_vertex());
        lemma_edge_facts(vs, bs, t.spec_prev_on_vertex());
        if slide_flips(vs, e) {
            law_slide_ready(vs, bs, e);
        }
        assert(slide_reads_ok(vs, bs, e));
        let rest = es.drop_first();
        assert forall|vm: Map<u64, Vertex>, bm: Map<u64, Bubble>| #[trigger] slide_post(vs, bs, e, vm, bm) implies
            slides_ok(vm, bm, rest) by {
            law_slide_keeps_sane(vs, bs, e, vm, bm);
            assert(vm.dom() == vs.dom());
            assert forall|i: int| 0 <= i < rest.len() implies has_edge(vm, #[trigger] rest[i]) by {
                assert(rest[i] == es[i + 1]);
                assert(has_edge(vs, es[i + 1]));
            }
            lemma_slides_ready(vm, bm, rest);
        }
    }
}

/// A removal can be made on a graph of at most 333 vertices that keeps its
/// invariants, when it is refused, or when the top and the bottom bubble do
/// not both have only two edges, the two can merge, and each wall that the
/// removal then slides is of a shape that the slide law covers.
pub proof fn law_remove_ready(vs: Map<u64, Vertex>, bs: Map<u64, Bubble>, e: EdgeKey)
    requires
        keys_valid(vs, bs),
        sane(vs, bs),
        vs.dom().finite(),
        bs.dom().finite(),
        3 * vs.dom().len() <= 999,
        has_edge(vs, e),
        !remove_blocked(vs, bs, e) ==> {
            &&& !(remove_case(vs, e) == 1 && e.spec_prev_on_vertex() == twin_of(vs, twin_of(vs, e).spec_next_on_vertex()))
            &&& bs[bubble_of(vs, e).id].style.can_merge(bs[bubble_of(vs, twin_of(vs, e)).id].style)
            &&& forall|vm: Map<u64, Vertex>, bm: Map<u64, Bubble>| #[trigger] merged(vs, bs, e, vm, bm) ==>
                slides_tame(vm, bm, degenerate_edges(vm, bm, bubble_of(vs, e)))
        },
    ensures
        remove_reads_ok(vs, bs, e),
{
    lemma_edge_facts(vs, bs, e);
    if !remove_blocked(vs, bs, e) {
        let t = twin_of(vs, e);
        let top = bubble_of(vs, e);
        assert(merge_sides(vs, e));
        if remove_case(vs, e) == 3 {
            lemma_merge_apart(vs, bs, e);
            law_merge_ready(vs, bs, e);
        } else if remove_case(vs, e) == 1 {
            lemma_digon_apart(vs, bs, e);
            law_digon_ready(vs, bs, e);
        } else {
            lemma_lower_digon_apart(vs, bs, e);
            law_digon_ready(vs, bs, e);
        }
        lemma_sane_lists_follow(vs, bs);
        reveal(lists_follow);
        assert(has_edge(vs, e.spec_next_on_vertex()) && has_edge(vs, t.spec_next_on_vertex()));
        assert(vs.dom().contains(e.vertex.id) && vs.dom().contains(t.vertex.id));
        assert(bs.dom().contains(top.id) && bs.dom().contains(bubble_of(vs, t).id));
        assert forall|vm: Map<u64, Vertex>, bm: Map<u64, Bubble>| #[trigger] merged(vs, bs, e, vm, bm) implies
            degenerate_reads_ok(vm, bm, top) && slides_ok(vm, bm, degenerate_edges(vm, bm, top)) by {
            if remove_case(vs, e) == 3 {
                law_merge_keeps_sane(vs, bs, e, vm, bm);
                assert(merge_setting(vs, bs, e, vm, bm));
                lemma_merge_keys_valid(vs, bs, e, vm, bm);
            } else if remove_case(vs, e) == 1 {
                law_digon_merge_keeps_sane(vs, bs, e, vm, bm);
            } else {
                law_lower_digon_merge_keeps_sane(vs, bs, e, vm, bm);
            }
            assert(vm.dom() == vs.dom().remove(e.vertex.id).remove(t.vertex.id));
            assert(vm.dom().len() < vs.dom().len());
            if bm.dom().contains(top.id) {
                let l = bm[top.id].edges@;
                assert forall|i: int| 0 <= i < l.len() implies
                    has_edge(vm, #[trigger] l[i]) && has_edge(vm, twin_of(vm, l[i])) by {
                    assert(boundary_ok(vm, bm, top.id, i));
                    assert(l[i].valid());
                    lemma_edge_facts(vm, bm, l[i]);
                }
                let es = degenerate_edges(vm, bm, top);
                assert forall|i: int| 0 <= i < es.len() implies has_edge(vm, #[trigger] es[i]) by {
                    let pred = |f: EdgeKey| is_degenerate(vm, top, f);
                    assert(es.contains(es[i]));
                    l.lemma_filter_contains_rev(pred, es[i]);
                }
            }
            lemma_slides_ready(vm, bm, degenerate_edges(vm, bm, top));
        }
    }
}

} // verus!
