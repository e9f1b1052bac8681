//! Scoring: every burst and every pop earns points, more when they follow
//! each other closely in a chain.
use vstd::prelude::*;

verus! {

/// How long, in microseconds, a chain waits for its next event.
pub const CHAIN_RESET_TIME: i64 = 2_000_000;

/// The points one burst wall is worth.
pub const WALL_BURST_POINTS: i64 = 10;

/// What earned points: a burst wall, or a pop of a bubble of some size.
#[derive(Debug, Clone, Copy, PartialEq, Eq, Structural)]
pub enum ScoreKind {
    Burst,
    Pop { size: i32 },
}

/// A run of events that follow each other within the reset time.
#[derive(Debug, Clone, Copy, PartialEq, Eq, Structural)]
pub struct ChainTimer {
    pub timer: i64,
    pub count: i32,
}

/// The chain after one more event: it goes on if it was running, and
/// otherwise starts anew; either way it runs for the reset time.
pub open spec fn re_upped(c: ChainTimer) -> ChainTimer {
    ChainTimer { timer: CHAIN_RESET_TIME, count: if c.timer > 0 { (c.count + 1) as i32 } else { 1 } }
}

/// The chains and the points after the event `e`: a burst earns ten
/// points per link of the burst chain, a pop ten points per unit of size
/// per link of the pop chain.
pub open spec fn score_step(b: ChainTimer, p: ChainTimer, e: ScoreKind) -> (ChainTimer, ChainTimer, int) {
    match e {
        ScoreKind::Burst => (re_upped(b), p, WALL_BURST_POINTS * re_upped(b).count),
        ScoreKind::Pop { size } => (b, re_upped(p), WALL_BURST_POINTS * size * re_upped(p).count),
    }
}

/// The chains and the points of each event after the events `es` in turn.
pub open spec fn score_run(b: ChainTimer, p: ChainTimer, es: Seq<ScoreKind>) -> (ChainTimer, ChainTimer, Seq<int>)
    decreases es.len(),
{
    if es.len() == 0 {
        (b, p, Seq::empty())
    } else {
        let (b1, p1, pts) = score_run(b, p, es.drop_last());
        let (b2, p2, x) = score_step(b1, p1, es.last());
        (b2, p2, pts.push(x))
    }
}

/// A chain's time run down by `dt` microseconds, down to the least time
/// it holds.
pub open spec fn run_down(c: ChainTimer, dt: i64) -> ChainTimer {
    ChainTimer { timer: if c.timer - dt >= i64::MIN { (c.timer - dt) as i64 } else { i64::MIN }, count: c.count }
}

/// Scoring the events `es` in turn overflows nothing: a running chain that
/// goes on has room for one more link, and each pop's points fit.
pub open spec fn steps_fit(b: ChainTimer, p: ChainTimer, es: Seq<ScoreKind>) -> bool
    decreases es.len(),
{
    if es.len() == 0 {
        true
    } else {
        let (b1, p1, pts) = score_run(b, p, es.drop_last());
        &&& steps_fit(b, p, es.drop_last())
        &&& match es.last() {
            ScoreKind::Burst => b1.timer > 0 ==> b1.count < i32::MAX,
            ScoreKind::Pop { size } => (p1.timer > 0 ==> p1.count < i32::MAX)
                && i64::MIN <= WALL_BURST_POINTS * size * re_upped(p1).count <= i64::MAX,
        }
    }
}

/// The sum of the numbers of `s`.
pub open spec fn seq_sum(s: Seq<int>) -> int
    decreases s.len(),
{
    if s.len() == 0 {
        0
    } else {
        seq_sum(s.drop_last()) + s.last()
    }
}

/// Every partial sum of `s` fits in 64 bits.
pub open spec fn sums_fit(s: Seq<int>) -> bool {
    forall|k: int| 0 <= k <= s.len() ==> i64::MIN <= #[trigger] seq_sum(s.take(k)) <= i64::MAX
}

/// What fits for all the events fits for the first `k` of them.
proof fn lemma_steps_fit_prefix(b: ChainTimer, p: ChainTimer, es: Seq<ScoreKind>, k: int)
    requires
        steps_fit(b, p, es),
        0 <= k <= es.len(),
    ensures
        steps_fit(b, p, es.take(k)),
    decreases es.len(),
{
    if k == es.len() {
        assert(es.take(k) =~= es);
    } else {
        assert(es.drop_last().take(k) =~= es.take(k));
        lemma_steps_fit_prefix(b, p, es.drop_last(), k);
    }
}

impl ChainTimer {
    pub fn new() -> (r: ChainTimer)
        ensures
            r == (ChainTimer { timer: 0, count: 0 }),
    {
        ChainTimer { timer: 0, count: 0 }
    }

    /// Another event: the chain goes on if it is running, and otherwise
    /// starts anew; either way it runs for the reset time.
    pub fn re_up(&mut self)
        requires
            old(self).timer > 0 ==> old(self).count < i32::MAX,
        ensures
            *final(self) == re_upped(*old(self)),
    {
        if self.timer > 0 {
            self.count = self.count + 1;
        } else {
            self.count = 1;
        }
        self.timer = CHAIN_RESET_TIME;
    }

    /// The chain's time runs down by `dt` microseconds.
    pub fn update(&mut self, dt: i64)
        requires
            0 <= dt,
        ensures
            *final(self) == run_down(*old(self), dt),
    {
        if self.timer >= i64::MIN + dt {
            self.timer = self.timer - dt;
        } else {
            self.timer = i64::MIN;
        }
    }

    /// The length of the running chain, or zero when it has run out.
    pub fn get_count(&self) -> (r: i32)
        ensures
            r == (if self.timer > 0 { self.count } else { 0 }),
    {
        if self.timer > 0 {
            self.count
        } else {
            0
        }
    }
}

/// The two chains, of bursts and of pops, and the score.
#[derive(Debug, Clone, Copy)]
pub struct ScoreManager {
    pub burst_chain: ChainTimer,
    pub pop_chain: ChainTimer,
    pub total: i64,
}

impl ScoreManager {
    pub fn new() -> (r: ScoreManager)
        ensures
            r.burst_chain == (ChainTimer { timer: 0, count: 0 }),
            r.pop_chain == (ChainTimer { timer: 0, count: 0 }),
            r.total == 0,
    {
        ScoreManager { burst_chain: ChainTimer::new(), pop_chain: ChainTimer::new(), total: 0 }
    }

    /// One tick of `dt` microseconds: both chains run down, then the events
    /// of the tick are scored in turn. Returns the points of each event;
    /// the score stays.
    pub fn score(&mut self, dt: i64, events: &Vec<ScoreKind>) -> (r: Vec<i64>)
        requires
            0 <= dt,
            steps_fit(run_down(old(self).burst_chain, dt), run_down(old(self).pop_chain, dt), events@),
        ensures
            ({
                let (b, p, pts) = score_run(run_down(old(self).burst_chain, dt), run_down(old(self).pop_chain, dt), events@);
                &&& final(self).burst_chain == b
                &&& final(self).pop_chain == p
                &&& r@.len() == pts.len()
                &&& forall|i: int| 0 <= i < pts.len() ==> r@[i] == #[trigger] pts[i]
            }),
            final(self).total == old(self).total,
    {
        self.burst_chain.update(dt);
        self.pop_chain.update(dt);
        let ghost b0 = self.burst_chain;
        let ghost p0 = self.pop_chain;
        let mut r: Vec<i64> = Vec::new();
        let mut i: usize = 0;
        while i < events.len()
            invariant
                i <= events@.len(),
                steps_fit(b0, p0, events@),
                self.total == old(self).total,
                ({
                    let (b, p, pts) = score_run(b0, p0, events@.take(i as int));
                    &&& self.burst_chain == b
                    &&& self.pop_chain == p
                    &&& r@.len() == pts.len()
                    &&& forall|j: int| 0 <= j < pts.len() ==> r@[j] == #[trigger] pts[j]
                }),
            decreases events@.len() - i,
        {
            proof {
                assert(events@.take(i + 1).drop_last() =~= events@.take(i as int));
                assert(events@.take(i + 1).last() == events@[i as int]);
                lemma_steps_fit_prefix(b0, p0, events@, i + 1);
            }
            match events[i] {
                ScoreKind::Burst => {
                    self.burst_chain.re_up();
                    let points = WALL_BURST_POINTS * (self.burst_chain.get_count() as i64);
                    r.push(points);
                },
                ScoreKind::Pop { size } => {
                    let ghost p1 = self.pop_chain;
                    self.pop_chain.re_up();
                    let c = self.pop_chain.get_count() as i64;
                    assert(c == re_upped(p1).count);
                    assert(i64::MIN <= WALL_BURST_POINTS * size * c <= i64::MAX);
                    assert(-0x4000_0000_0000_0000 <= (size as i64) * c <= 0x4000_0000_0000_0000) by (nonlinear_arith)
                        requires i32::MIN <= size <= i32::MAX, i32::MIN <= c <= i32::MAX;
                    let sc = (size as i64) * c;
                    assert(i64::MIN <= WALL_BURST_POINTS * sc <= i64::MAX) by (nonlinear_arith)
                        requires sc == size * c, i64::MIN <= WALL_BURST_POINTS * size * c <= i64::MAX;
                    let points = WALL_BURST_POINTS * sc;
                    assert(points == WALL_BURST_POINTS * size * c) by (nonlinear_arith)
                        requires sc == size * c, points == WALL_BURST_POINTS * sc;
                    r.push(points);
                },
            }
            i += 1;
        }
        proof {
            assert(events@.take(events@.len() as int) =~= events@);
        }
        r
    }

    /// One tick of `dt` microseconds with the events of the tick: they are
    /// scored in turn, and their points are kept, added to the score, only
    /// when their sum is positive. Returns the points of each event when
    /// they are kept, and nothing otherwise.
    pub fn update(&mut self, dt: i64, events: &Vec<ScoreKind>) -> (r: Vec<i64>)
        requires
            0 <= dt,
            steps_fit(run_down(old(self).burst_chain, dt), run_down(old(self).pop_chain, dt), events@),
            sums_fit(score_run(run_down(old(self).burst_chain, dt), run_down(old(self).pop_chain, dt), events@).2),
            seq_sum(score_run(run_down(old(self).burst_chain, dt), run_down(old(self).pop_chain, dt), events@).2) > 0 ==>
                old(self).total + seq_sum(score_run(run_down(old(self).burst_chain, dt), run_down(old(self).pop_chain, dt), events@).2)
                    <= i64::MAX,
        ensures
            ({
                let (b, p, pts) = score_run(run_down(old(self).burst_chain, dt), run_down(old(self).pop_chain, dt), events@);
                &&& final(self).burst_chain == b
                &&& final(self).pop_chain == p
                &&& seq_sum(pts) > 0 ==> final(self).total == old(self).total + seq_sum(pts) && r@.len() == pts.len()
                    && forall|i: int| 0 <= i < pts.len() ==> r@[i] == #[trigger] pts[i]
                &&& seq_sum(pts) <= 0 ==> final(self).total == old(self).total && r@.len() == 0
            }),
    {
        let ghost run = score_run(run_down(self.burst_chain, dt), run_down(self.pop_chain, dt), events@);
        let ghost pts = run.2;
        let ghost total0 = self.total;
        let points = self.score(dt, events);
        assert(self.burst_chain == run.0 && self.pop_chain == run.1 && self.total == total0);
        let mut sum: i64 = 0;
        let mut i: usize = 0;
        while i < points.len()
            invariant
                i <= points@.len(),
                points@.len() == pts.len(),
                forall|j: int| 0 <= j < pts.len() ==> points@[j] == #[trigger] pts[j],
                sums_fit(pts),
                sum == seq_sum(pts.take(i as int)),
            decreases points@.len() - i,
        {
            proof {
                assert(pts.take(i + 1).drop_last() =~= pts.take(i as int));
                assert(pts.take(i + 1).last() == pts[i as int]);
                assert(i64::MIN <= seq_sum(pts.take(i + 1)) <= i64::MAX);
            }
            sum = sum + points[i];
            i += 1;
        }
        proof {
            assert(pts.take(pts.len() as int) =~= pts);
        }
        assert(sum == seq_sum(pts));
        if sum > 0 {
            self.total = self.total + sum;
            points
        } else {
            Vec::new()
        }
    }
}

} // verus!
