use crate::number_pairing::{pairing_of, NumberPairing, PairModel, DEFAULT_SUM, MAX_SUM};
use vstd::prelude::*;

verus! {

/// The most rounds a search runs, whether or not it has converged.
pub const MAX_RUNS: u32 = 40;

/// Only rounds with a step of at least 0.01 units (in ticks) feed the other results.
pub const MIN_OTHER_STEP: u64 = 1_000_000;

/// The views of a sequence of pairings.
pub open spec fn views(s: Seq<NumberPairing>) -> Seq<PairModel> {
    s.map_values(|p: NumberPairing| p@)
}

/// The degenerate pairing `(0, sum)`, whose score is zero.
pub open spec fn zero_pairing(sum: int) -> PairModel {
    PairModel { first: 0, sum }
}

/// Whether a pairing may join the other results: it is not the degenerate pairing, the round's
/// step is coarse enough, and other results are being collected.
pub open spec fn eligible(p: PairModel, sum: int, step: int, collect: bool) -> bool {
    !p.same_split(zero_pairing(sum)) && step >= MIN_OTHER_STEP && collect
}

/// The eligible pairings of a sequence, in their order.
pub open spec fn eligible_of(s: Seq<PairModel>, sum: int, step: int, collect: bool) -> Seq<
    PairModel,
>
    decreases s.len(),
{
    if s.len() == 0 {
        Seq::empty()
    } else {
        let rest = eligible_of(s.drop_last(), sum, step, collect);
        if eligible(s.last(), sum, step, collect) {
            rest.push(s.last())
        } else {
            rest
        }
    }
}

/// What one round has gathered: its best pairing, the pairings equal to it, and the others.
pub ghost struct RoundModel {
    pub best: PairModel,
    pub best_list: Seq<PairModel>,
    pub other: Seq<PairModel>,
}

/// A round before any candidate: the degenerate pairing is the one to beat.
pub open spec fn empty_round(sum: int) -> RoundModel {
    RoundModel { best: zero_pairing(sum), best_list: Seq::empty(), other: Seq::empty() }
}

/// A round after one more candidate `p`.
pub open spec fn scan_one(r: RoundModel, p: PairModel, sum: int, step: int, collect: bool) -> RoundModel {
    if p.score() > r.best.score() {
        RoundModel {
            best: p,
            best_list: seq![p],
            other: r.other + eligible_of(r.best_list, sum, step, collect),
        }
    } else if p.same_split(r.best) {
        RoundModel { best_list: r.best_list.push(p), ..r }
    } else if eligible(p, sum, step, collect) {
        RoundModel { other: r.other.push(p), ..r }
    } else {
        r
    }
}

/// A round after the candidates `v, v + step, ...` up to `high`.
pub open spec fn scan_from(
    r: RoundModel,
    v: int,
    high: int,
    step: int,
    sum: int,
    collect: bool,
) -> RoundModel
    decreases (if v > high {
        0
    } else {
        high - v + 1
    }),
{
    if v > high || step <= 0 {
        r
    } else {
        scan_from(
            scan_one(r, pairing_of(v, sum), sum, step, collect),
            v + step,
            high,
            step,
            sum,
            collect,
        )
    }
}

/// A whole round over `low, low + step, ...` up to `high`.
pub open spec fn round_of(low: int, high: int, step: int, sum: int, collect: bool) -> RoundModel {
    scan_from(empty_round(sum), low, high, step, sum, collect)
}

/// The state of a search between rounds.
pub ghost struct SearchModel {
    pub overall_best: PairModel,
    pub best_list: Seq<PairModel>,
    pub other: Seq<PairModel>,
    pub low: int,
    pub high: int,
    pub step: int,
    pub runs: int,
    pub done: bool,
}

/// The state before the first round: the degenerate pairing is the best so far, and the first
/// round scans the half domain `[0, sum / 2]` at a step of `sum / 4` (at least one tick).
pub open spec fn start(sum: int) -> SearchModel {
    SearchModel {
        overall_best: zero_pairing(sum),
        best_list: seq![zero_pairing(sum)],
        other: Seq::empty(),
        low: 0,
        high: sum / 2,
        step: if sum / 4 >= 1 {
            sum / 4
        } else {
            1
        },
        runs: 0,
        done: false,
    }
}

/// The step of the round after round number `runs`: `step / (runs * 4)`, at least one tick.
pub open spec fn finer_step(step: int, runs: int) -> int {
    if step / (runs * 4) >= 1 {
        step / (runs * 4)
    } else {
        1
    }
}

/// The state after one more round.
pub open spec fn advance(s: SearchModel, sum: int, collect: bool) -> SearchModel {
    let runs = s.runs + 1;
    let r = round_of(s.low, s.high, s.step, sum, collect);
    if !(r.best.score() > s.overall_best.score()) || r.best.equivalent(s.overall_best) {
        SearchModel { runs, done: true, ..s }
    } else {
        let target = r.best.first;
        let margin = s.step / 2;
        SearchModel {
            overall_best: r.best,
            best_list: r.best_list,
            other: s.other + (r.other + eligible_of(s.best_list, sum, s.step, collect)),
            low: if target - margin > s.low {
                target - margin
            } else {
                s.low
            },
            high: if target + margin < s.high {
                target + margin
            } else {
                s.high
            },
            step: finer_step(s.step, runs),
            runs,
            done: false,
        }
    }
}

/// The state once the search has converged or run out of rounds.
pub open spec fn run_from(s: SearchModel, sum: int, collect: bool) -> SearchModel
    decreases MAX_RUNS - s.runs,
{
    if s.done || s.runs >= MAX_RUNS {
        s
    } else {
        run_from(advance(s, sum, collect), sum, collect)
    }
}

/// The final state of the search for a sum.
pub open spec fn search(sum: int, collect: bool) -> SearchModel {
    run_from(start(sum), sum, collect)
}

/// Scores never rise along the sequence.
pub open spec fn descending(s: Seq<PairModel>) -> bool {
    forall|i: int, j: int| 0 <= i < j < s.len() ==> s[i].score() >= s[j].score()
}

/// No two entries of the sequence are equal pairings.
pub open spec fn distinct_splits(s: Seq<PairModel>) -> bool {
    forall|i: int, j: int|
        0 <= i < s.len() && 0 <= j < s.len() && i != j ==> !s[i].same_split(s[j])
}

/// Some entry of `s` is a pairing equal to `p`.
pub open spec fn has_equal(s: Seq<PairModel>, p: PairModel) -> bool {
    exists|i: int| 0 <= i < s.len() && (#[trigger] s[i]).same_split(p)
}

/// `out` holds entries of `bucket` only, and an entry equal to each entry of `bucket`.
pub open spec fn covers(out: Seq<PairModel>, bucket: Seq<PairModel>) -> bool {
    &&& forall|i: int| 0 <= i < out.len() ==> bucket.contains(#[trigger] out[i])
    &&& forall|k: int| 0 <= k < bucket.len() ==> has_equal(out, #[trigger] bucket[k])
}

/// `out` is `bucket` without repeated pairings, sorted by descending score.
pub open spec fn sorted_unique_of(out: Seq<PairModel>, bucket: Seq<PairModel>) -> bool {
    descending(out) && distinct_splits(out) && covers(out, bucket)
}

/// Whether a pairing may join the other results of a round with the given step.
fn can_be_added_to_other(pairing: &NumberPairing, sum: u64, step: u64, collect: bool) -> (r: bool)
    requires
        sum <= MAX_SUM,
    ensures
        r == eligible(pairing@, sum as int, step as int, collect),
{
    let zero = NumberPairing::new(0, sum);
    *pairing != zero && step >= MIN_OTHER_STEP && collect
}

/// Appends to `to` the eligible pairings of `from`, in their order.
fn demote(from: &Vec<NumberPairing>, to: &mut Vec<NumberPairing>, sum: u64, step: u64, collect: bool)
    requires
        sum <= MAX_SUM,
    ensures
        views(final(to)@) == views(old(to)@) + eligible_of(views(from@), sum as int, step as int, collect),
{
    let ghost start = views(to@);
    let mut i: usize = 0;
    while i < from.len()
        invariant
            sum <= MAX_SUM,
            i <= from.len(),
            views(to@) == start + eligible_of(views(from@).take(i as int), sum as int, step as int, collect),
        decreases from.len() - i,
    {
        let pairing = from[i];
        let ghost before = views(to@);
        let ghost all = views(from@);
        proof {
            assert(all.take(i + 1).drop_last() =~= all.take(i as int));
            assert(all.take(i + 1).last() == pairing@);
        }
        if can_be_added_to_other(&pairing, sum, step, collect) {
            to.push(pairing);
            assert(views(to@) =~= before.push(pairing@));
            assert(eligible_of(all.take(i + 1), sum as int, step as int, collect)
                == eligible_of(all.take(i as int), sum as int, step as int, collect).push(pairing@));
            assert(views(to@) =~= start + eligible_of(all.take(i + 1), sum as int, step as int, collect));
        } else {
            assert(eligible_of(all.take(i + 1), sum as int, step as int, collect)
                == eligible_of(all.take(i as int), sum as int, step as int, collect));
        }
        i = i + 1;
    }
    assert(views(from@).take(from.len() as int) =~= views(from@));
}

/// Scans one round over `low, low + step, ...` up to `high`, and returns its best pairing, the
/// pairings equal to it, and the other pairings that may be kept.
fn scan_round(low: u64, high: u64, step: u64, sum: u64, collect: bool) -> (r: (NumberPairing, Vec<NumberPairing>, Vec<NumberPairing>))
    requires
        sum <= MAX_SUM,
        high <= sum,
        1 <= step <= MAX_SUM,
    ensures
        (RoundModel { best: r.0@, best_list: views(r.1@), other: views(r.2@) })
            == round_of(low as int, high as int, step as int, sum as int, collect),
{
    let mut best = NumberPairing::new(0, sum);
    let mut best_list: Vec<NumberPairing> = Vec::new();
    let mut other: Vec<NumberPairing> = Vec::new();
    let mut v: u64 = low;
    assert(views(best_list@) =~= Seq::<PairModel>::empty());
    assert(views(other@) =~= Seq::<PairModel>::empty());
    while v <= high
        invariant
            sum <= MAX_SUM,
            high <= sum,
            1 <= step <= MAX_SUM,
            v <= low || v <= high + step,
            scan_from(
                RoundModel { best: best@, best_list: views(best_list@), other: views(other@) },
                v as int,
                high as int,
                step as int,
                sum as int,
                collect,
            ) == round_of(low as int, high as int, step as int, sum as int, collect),
        decreases high + step - v,
    {
        let pairing = NumberPairing::new(v as i64, sum);
        let ghost before = RoundModel { best: best@, best_list: views(best_list@), other: views(other@) };
        if pairing > best {
            demote(&best_list, &mut other, sum, step, collect);
            best = pairing;
            best_list = Vec::new();
            best_list.push(pairing);
            assert(views(best_list@) =~= seq![pairing@]);
        } else if pairing == best {
            best_list.push(pairing);
            assert(views(best_list@) =~= before.best_list.push(pairing@));
        } else if can_be_added_to_other(&pairing, sum, step, collect) {
            other.push(pairing);
            assert(views(other@) =~= before.other.push(pairing@));
        }
        assert((RoundModel { best: best@, best_list: views(best_list@), other: views(other@) })
            == scan_one(before, pairing_of(v as int, sum as int), sum as int, step as int, collect));
        v = v + step;
    }
    (best, best_list, other)
}

/// Sorts pairings by descending score, keeping one of each set of equal pairings.
fn sort_and_dedup(bucket: &Vec<NumberPairing>) -> (out: Vec<NumberPairing>)
    ensures
        sorted_unique_of(views(out@), views(bucket@)),
{
    let ghost b = views(bucket@);
    let mut out: Vec<NumberPairing> = Vec::new();
    let mut k: usize = 0;
    while k < bucket.len()
        invariant
            k <= bucket.len(),
            b == views(bucket@),
            descending(views(out@)),
            distinct_splits(views(out@)),
            forall|i: int| 0 <= i < out.len() ==> b.contains(#[trigger] views(out@)[i]),
            forall|m: int| 0 <= m < k ==> has_equal(views(out@), #[trigger] b[m]),
        decreases bucket.len() - k,
    {
        let pairing = bucket[k];
        let ghost o = views(out@);
        let ghost p = pairing@;
        assert(b[k as int] == p);
        let mut found = false;
        let mut i: usize = 0;
        while i < out.len()
            invariant
                i <= out.len(),
                o == views(out@),
                p == pairing@,
                found <==> exists|j: int| 0 <= j < i && (#[trigger] o[j]).same_split(p),
            decreases out.len() - i,
        {
            if out[i] == pairing {
                found = true;
                assert(o[i as int].same_split(p));
            }
            i = i + 1;
        }
        if !found {
            let score = pairing.result();
            let mut j: usize = 0;
            while j < out.len() && out[j].result() >= score
                invariant
                    j <= out.len(),
                    o == views(out@),
                    score == p.score(),
                    forall|t: int| 0 <= t < j ==> (#[trigger] o[t]).score() >= p.score(),
                decreases out.len() - j,
            {
                j = j + 1;
            }
            proof {
                assert forall|t: int| j <= t < o.len() implies (#[trigger] o[t]).score() < p.score() by {
                    assert(o[j as int].score() >= o[t].score());
                }
            }
            out.insert(j, pairing);
            let ghost n = views(out@);
            proof {
                assert(n =~= o.insert(j as int, p));
                assert forall|a: int| 0 <= a < n.len() implies #[trigger] n[a] == (if a < j {
                    o[a]
                } else if a == j {
                    p
                } else {
                    o[a - 1]
                }) by {}
                assert forall|t: int| 0 <= t < o.len() implies !(#[trigger] o[t]).same_split(p)
                    && !p.same_split(o[t]) by {
                    if p.same_split(o[t]) {
                        crate::number_pairing::lemma_same_split_same_score(p, o[t]);
                    }
                }
                assert forall|a: int, c: int| 0 <= a < c < n.len() implies n[a].score() >= n[c].score() by {
                    assert(n[a] == (if a < j { o[a] } else if a == j { p } else { o[a - 1] }));
                    assert(n[c] == (if c < j { o[c] } else if c == j { p } else { o[c - 1] }));
                }
                assert forall|a: int, c: int|
                    0 <= a < n.len() && 0 <= c < n.len() && a != c implies !n[a].same_split(n[c]) by {
                    assert(n[a] == (if a < j { o[a] } else if a == j { p } else { o[a - 1] }));
                    assert(n[c] == (if c < j { o[c] } else if c == j { p } else { o[c - 1] }));
                }
                assert forall|a: int| 0 <= a < n.len() implies b.contains(#[trigger] n[a]) by {
                    assert(n[a] == (if a < j { o[a] } else if a == j { p } else { o[a - 1] }));
                    if a == j {
                        assert(b[k as int] == p);
                    } else if a < j {
                        assert(b.contains(o[a]));
                    } else {
                        assert(b.contains(o[a - 1]));
                    }
                }
                assert forall|m: int| 0 <= m < k + 1 implies has_equal(n, #[trigger] b[m]) by {
                    if m == k {
                        assert(n[j as int].same_split(b[m]));
                    } else {
                        let w = choose|i: int| 0 <= i < o.len() && (#[trigger] o[i]).same_split(b[m]);
                        if w < j {
                            assert(n[w].same_split(b[m]));
                        } else {
                            assert(n[w + 1].same_split(b[m]));
                        }
                    }
                }
            }
        } else {
            proof {
                let w = choose|j: int| 0 <= j < i && (#[trigger] o[j]).same_split(p);
                assert(views(out@)[w].same_split(b[k as int]));
            }
        }
        k = k + 1;
    }
    out
}

/// Every entry of `list` has the score of `best`.
pub open spec fn all_score(list: Seq<PairModel>, best: PairModel) -> bool {
    forall|i: int| 0 <= i < list.len() ==> (#[trigger] list[i]).score() == best.score()
}

proof fn lemma_scan_keeps_ties(r: RoundModel, v: int, high: int, step: int, sum: int, collect: bool)
    requires
        all_score(r.best_list, r.best),
    ensures
        all_score(scan_from(r, v, high, step, sum, collect).best_list, scan_from(r, v, high, step, sum, collect).best),
    decreases (if v > high {
        0
    } else {
        high - v + 1
    }),
{
    if !(v > high || step <= 0) {
        let p = pairing_of(v, sum);
        let next = scan_one(r, p, sum, step, collect);
        if p.score() > r.best.score() {
            assert(all_score(next.best_list, next.best));
        } else if p.same_split(r.best) {
            crate::number_pairing::lemma_same_split_same_score(p, r.best);
            assert(all_score(next.best_list, next.best));
        }
        lemma_scan_keeps_ties(next, v + step, high, step, sum, collect);
    }
}

proof fn lemma_search_keeps_ties(s: SearchModel, sum: int, collect: bool)
    requires
        all_score(s.best_list, s.overall_best),
    ensures
        all_score(run_from(s, sum, collect).best_list, run_from(s, sum, collect).overall_best),
    decreases MAX_RUNS - s.runs,
{
    if !(s.done || s.runs >= MAX_RUNS) {
        lemma_scan_keeps_ties(empty_round(sum), s.low, s.high, s.step, sum, collect);
        lemma_search_keeps_ties(advance(s, sum, collect), sum, collect);
    }
}

/// Every pairing that a search reports as best reaches the best score.
pub proof fn lemma_best_pairings_reach_best_score(sum: int, collect: bool)
    ensures
        all_score(search(sum, collect).best_list, search(sum, collect).overall_best),
{
    assert(all_score(start(sum).best_list, start(sum).overall_best));
    lemma_search_keeps_ties(start(sum), sum, collect);
}

/// A sum of zero converges in one round, with best score zero and the single best pairing
/// `(0, 0)`.
pub proof fn lemma_zero_sum(collect: bool)
    ensures
        search(0, collect).runs == 1,
        search(0, collect).overall_best.score() == 0,
        search(0, collect).best_list == seq![zero_pairing(0)],
{
    let s = start(0);
    let first = scan_one(empty_round(0), pairing_of(0, 0), 0, 1, collect);
    assert(scan_from(first, 1, 0, 1, 0, collect) == first);
    assert(round_of(0, 0, 1, 0, collect) == first);
    let next = advance(s, 0, collect);
    assert(next.done && next.runs == 1);
    assert(run_from(next, 0, collect) == next);
    let z = zero_pairing(0);
    assert(z.first == 0);
    assert(z.score() == 0) by (nonlinear_arith)
        requires
            z.first == 0,
            z.score() == z.first * z.second() * z.difference(),
    ;
}

/// What a finished search reports.
pub struct Results {
    /// The best score found.
    pub best: u128,
    /// The pairings that reached the best score.
    pub best_pairing: Vec<NumberPairing>,
    /// The other distinct pairings met on the way, by descending score, when they were collected.
    pub other: Option<Vec<NumberPairing>>,
}

/// `results` and `runs` report the finished search `m`.
pub open spec fn reports(results: Results, runs: int, m: SearchModel, collect: bool) -> bool {
    &&& results.best == m.overall_best.score()
    &&& all_score(m.best_list, m.overall_best)
    &&& views(results.best_pairing@) == m.best_list
    &&& runs == m.runs
    &&& match results.other {
        Some(o) => collect && sorted_unique_of(views(o@), m.other),
        None => !collect,
    }
}

/// The problem of splitting `sum` into two numbers whose product times their difference is as
/// large as possible, with its solution once solved.
pub struct NumberPairingProblem {
    pub sum: u64,
    /// How many rounds the search ran.
    pub runs_to_solve: u32,
    pub results: Option<Results>,
}

impl NumberPairingProblem {
    /// Solves the problem for `initial_sum`, keeping the other top pairings when asked to.
    pub fn solve_with(initial_sum: u64, collect_other_results: bool) -> (r: Self)
        requires
            initial_sum <= MAX_SUM,
        ensures
            r.sum == initial_sum,
            1 <= r.runs_to_solve <= MAX_RUNS,
            match r.results {
                Some(results) => reports(
                    results,
                    r.runs_to_solve as int,
                    search(initial_sum as int, collect_other_results),
                    collect_other_results,
                ),
                None => false,
            },
    {
        let mut problem = NumberPairingProblem { sum: initial_sum, runs_to_solve: 0, results: None };
        problem.solve(collect_other_results);
        problem
    }

    /// Solves the default problem, a sum of 8 units, keeping the other top pairings.
    pub fn solve_default() -> (r: Self)
        ensures
            r.sum == DEFAULT_SUM,
            1 <= r.runs_to_solve <= MAX_RUNS,
            match r.results {
                Some(results) => reports(results, r.runs_to_solve as int, search(DEFAULT_SUM as int, true), true),
                None => false,
            },
    {
        Self::solve_with(DEFAULT_SUM, true)
    }

    /// Runs the search: each round scans an interval at a step, and while a round finds a
    /// strictly better pairing (by more than the minimum precision), the next round scans
    /// around it at a finer step, up to `MAX_RUNS` rounds.
    fn solve(&mut self, collect_other_results: bool)
        requires
            old(self).sum <= MAX_SUM,
        ensures
            final(self).sum == old(self).sum,
            1 <= final(self).runs_to_solve <= MAX_RUNS,
            match final(self).results {
                Some(results) => reports(
                    results,
                    final(self).runs_to_solve as int,
                    search(old(self).sum as int, collect_other_results),
                    collect_other_results,
                ),
                None => false,
            },
    {
        let sum = self.sum;
        let collect = collect_other_results;
        let mut overall_best = NumberPairing::new(0, sum);
        let mut best_list: Vec<NumberPairing> = Vec::new();
        best_list.push(overall_best);
        let mut other: Vec<NumberPairing> = Vec::new();
        let mut low: u64 = 0;
        let mut high: u64 = sum / 2;
        let mut step: u64 = if sum / 4 >= 1 {
            sum / 4
        } else {
            1
        };
        let mut runs: u32 = 0;
        let mut done = false;
        assert(views(best_list@) =~= seq![zero_pairing(sum as int)]);
        assert(views(other@) =~= Seq::<PairModel>::empty());
        while !done && runs < MAX_RUNS
            invariant
                sum <= MAX_SUM,
                low <= MAX_SUM,
                high <= sum,
                1 <= step <= MAX_SUM,
                runs <= MAX_RUNS,
                runs >= 1 || !done,
                run_from(
                    SearchModel {
                        overall_best: overall_best@,
                        best_list: views(best_list@),
                        other: views(other@),
                        low: low as int,
                        high: high as int,
                        step: step as int,
                        runs: runs as int,
                        done,
                    },
                    sum as int,
                    collect,
                ) == search(sum as int, collect),
            decreases MAX_RUNS - runs,
        {
            let ghost before = SearchModel {
                overall_best: overall_best@,
                best_list: views(best_list@),
                other: views(other@),
                low: low as int,
                high: high as int,
                step: step as int,
                runs: runs as int,
                done,
            };
            runs = runs + 1;
            let (round_best, round_best_list, mut round_other) = scan_round(low, high, step, sum, collect);
            if !(round_best > overall_best) || round_best.is_equivalent_to(&overall_best) {
                done = true;
            } else {
                let ghost other_before = views(other@);
                demote(&best_list, &mut round_other, sum, step, collect);
                overall_best = round_best;
                best_list = round_best_list;
                let ghost added = views(round_other@);
                other.append(&mut round_other);
                assert(views(other@) =~= other_before + added);
                let target = overall_best.first();
                let margin = step / 2;
                low = if target > low + margin {
                    target - margin
                } else {
                    low
                };
                high = if target + margin < high {
                    target + margin
                } else {
                    high
                };
                let finer = step / ((runs as u64) * 4);
                step = if finer >= 1 {
                    finer
                } else {
                    1
                };
            }
            assert((SearchModel {
                overall_best: overall_best@,
                best_list: views(best_list@),
                other: views(other@),
                low: low as int,
                high: high as int,
                step: step as int,
                runs: runs as int,
                done,
            }) == advance(before, sum as int, collect));
        }
        let others = if collect {
            Some(sort_and_dedup(&other))
        } else {
            None
        };
        proof {
            lemma_best_pairings_reach_best_score(sum as int, collect);
        }
        self.runs_to_solve = runs;
        self.results = Some(Results { best: overall_best.result(), best_pairing: best_list, other: others });
    }
}

} // verus!
