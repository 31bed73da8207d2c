//! How well predicted tracks and collisions agree with those that took place.
use vstd::math::abs;
use vstd::prelude::*;

verus! {

// ---- Tracks -------------------------------------------------------------------------------------
/// `errors` are the errors of ball `i` in the first `n` steps, and `drifts` those of its motion
/// from each of these steps to the next.
pub open spec fn track_errors<P, S, E: Fn(&P, &P) -> S, D: Fn(&P, &P, &P, &P) -> S>(
    pred: Seq<Vec<P>>,
    gt: Seq<Vec<P>>,
    i: int,
    n: int,
    errors: Seq<S>,
    drifts: Seq<S>,
    error: E,
    drift: D,
) -> bool {
    &&& errors.len() == n
    &&& drifts.len() == n - 1
    &&& forall|t: int|
        0 <= t < n ==> error.ensures((&pred[t][i], &gt[t][i]), #[trigger] errors[t])
    &&& forall|t: int|
        0 <= t < n - 1 ==> drift.ensures(
            (&pred[t][i], &pred[t + 1][i], &gt[t][i], &gt[t + 1][i]),
            #[trigger] drifts[t],
        )
}

/// The number of steps that both sides have.
pub open spec fn common_steps<P>(pred: Seq<Vec<P>>, gt: Seq<Vec<P>>) -> int {
    vstd::math::min(pred.len() as int, gt.len() as int)
}

/// `metrics` sums up the errors of ball `i` over `n` steps, or none at all if there are fewer than
/// two.
pub open spec fn summed_up<
    P,
    S,
    M,
    E: Fn(&P, &P) -> S,
    D: Fn(&P, &P, &P, &P) -> S,
    F: Fn(&Vec<S>, &Vec<S>) -> M,
>(
    pred: Seq<Vec<P>>,
    gt: Seq<Vec<P>>,
    i: int,
    n: int,
    metrics: M,
    error: E,
    drift: D,
    summary: F,
) -> bool {
    exists|errors: Vec<S>, drifts: Vec<S>|
        {
            &&& #[trigger] summary.ensures((&errors, &drifts), metrics)
            &&& if n < 2 {
                errors.len() == 0 && drifts.len() == 0
            } else {
                track_errors(pred, gt, i, n, errors@, drifts@, error, drift)
            }
        }
}

/// Sums up, ball by ball, how far predicted tracks are off. `error` measures a place against the
/// true one, `drift` a motion against the true one (predicted before and after, then true before
/// and after), and `summary` makes metrics of both lists. Only steps that both sides have count,
/// and fewer than two of them count as none.
pub fn compute_tracking_metrics<
    P,
    S,
    M,
    E: Fn(&P, &P) -> S,
    D: Fn(&P, &P, &P, &P) -> S,
    F: Fn(&Vec<S>, &Vec<S>) -> M,
>(pred: &[Vec<P>], gt: &[Vec<P>], error: E, drift: D, summary: F) -> (metrics: Vec<M>)
    requires
        gt.len() > 0,
        common_steps(pred@, gt@) >= 2 ==> forall|t: int|
            0 <= t < common_steps(pred@, gt@) ==> (#[trigger] pred[t]).len() >= gt[0].len(),
        common_steps(pred@, gt@) >= 2 ==> forall|t: int|
            0 <= t < common_steps(pred@, gt@) ==> (#[trigger] gt[t]).len() >= gt[0].len(),
        forall|a: &P, b: &P| #[trigger] error.requires((a, b)),
        forall|a: &P, b: &P, c: &P, d: &P| #[trigger] drift.requires((a, b, c, d)),
        forall|e: &Vec<S>, d: &Vec<S>| #[trigger] summary.requires((e, d)),
    ensures
        metrics.len() == gt[0].len(),
        forall|i: int|
            0 <= i < metrics.len() ==> summed_up(
                pred@,
                gt@,
                i,
                common_steps(pred@, gt@),
                #[trigger] metrics[i],
                error,
                drift,
                summary,
            ),
{
    let n: usize = if pred.len() < gt.len() {
        pred.len()
    } else {
        gt.len()
    };
    let balls: usize = gt[0].len();
    let mut metrics: Vec<M> = Vec::new();
    for i in 0..balls
        invariant
            n == common_steps(pred@, gt@),
            balls == gt[0].len(),
            gt.len() > 0,
            n >= 2 ==> forall|t: int| 0 <= t < n ==> (#[trigger] pred[t]).len() >= balls,
            n >= 2 ==> forall|t: int| 0 <= t < n ==> (#[trigger] gt[t]).len() >= balls,
            forall|a: &P, b: &P| #[trigger] error.requires((a, b)),
            forall|a: &P, b: &P, c: &P, d: &P| #[trigger] drift.requires((a, b, c, d)),
            forall|e: &Vec<S>, d: &Vec<S>| #[trigger] summary.requires((e, d)),
            metrics.len() == i,
            forall|k: int|
                0 <= k < i ==> summed_up(
                    pred@,
                    gt@,
                    k,
                    n as int,
                    #[trigger] metrics[k],
                    error,
                    drift,
                    summary,
                ),
    {
        let mut errors: Vec<S> = Vec::new();
        let mut drifts: Vec<S> = Vec::new();
        if n >= 2 {
            for t in 0..n
                invariant
                    2 <= n,
                    n <= pred.len(),
                    n <= gt.len(),
                    i < balls,
                    forall|k: int| 0 <= k < n ==> (#[trigger] pred[k]).len() >= balls,
                    forall|k: int| 0 <= k < n ==> (#[trigger] gt[k]).len() >= balls,
                    forall|a: &P, b: &P| #[trigger] error.requires((a, b)),
                    forall|a: &P, b: &P, c: &P, d: &P| #[trigger] drift.requires((a, b, c, d)),
                    errors.len() == t,
                    drifts.len() == if t == 0 {
                        0
                    } else {
                        t - 1
                    },
                    forall|k: int|
                        0 <= k < t ==> error.ensures(
                            (&pred[k][i as int], &gt[k][i as int]),
                            #[trigger] errors[k],
                        ),
                    forall|k: int|
                        0 <= k < t - 1 ==> drift.ensures(
                            (
                                &pred[k][i as int],
                                &pred[k + 1][i as int],
                                &gt[k][i as int],
                                &gt[k + 1][i as int],
                            ),
                            #[trigger] drifts[k],
                        ),
            {
                errors.push(error(&pred[t][i], &gt[t][i]));
                if t > 0 {
                    drifts.push(drift(&pred[t - 1][i], &pred[t][i], &gt[t - 1][i], &gt[t][i]));
                }
            }
        }
        let m = summary(&errors, &drifts);
        assert(summary.ensures((&errors, &drifts), m));
        assert(summed_up(pred@, gt@, i as int, n as int, m, error, drift, summary));
        metrics.push(m);
    }
    metrics
}

// ---- Collisions ---------------------------------------------------------------------------------
/// A collision: the step and the two balls.
pub type Event = (usize, usize, usize);

/// An exact fraction.
#[derive(Clone, Copy, Debug, PartialEq, Eq, Structural)]
pub struct Ratio {
    /// The numerator.
    pub num: u128,
    /// The denominator, never zero.
    pub den: u128,
}

/// How well collisions were predicted.
#[derive(Clone, Copy, Debug, PartialEq, Eq, Structural)]
pub struct CollisionMetrics {
    /// Matched predictions for each collision that took place.
    pub accuracy: Ratio,
    /// The mean distance in time of matched predictions.
    pub time_error: Ratio,
    /// The share of collisions that were predicted.
    pub recall: Ratio,
    /// The share of predictions that came true.
    pub precision: Ratio,
}

/// The distance in time between two events.
pub open spec fn time_apart(a: Event, b: Event) -> int {
    abs(a.0 - b.0) as int
}

/// The same two balls collide, in either order, at most `window` steps apart.
pub open spec fn agrees(predicted: Event, actual: Event, window: int) -> bool {
    &&& (predicted.1 == actual.1 && predicted.2 == actual.2) || (predicted.1 == actual.2 && predicted.2
        == actual.1)
    &&& time_apart(predicted, actual) <= window
}

/// The first of the real events from place `i` on that a prediction agrees with, if any.
pub open spec fn first_match(predicted: Event, actual: Seq<Event>, window: int, i: nat) -> Option<int>
    decreases actual.len() - i,
{
    if i >= actual.len() {
        None
    } else if agrees(predicted, actual[i as int], window) {
        Some(i as int)
    } else {
        first_match(predicted, actual, window, i + 1)
    }
}

/// How many of the first `n` predictions came true.
pub open spec fn matched(predicted: Seq<Event>, actual: Seq<Event>, window: int, n: nat) -> nat
    decreases n,
{
    if n == 0 {
        0
    } else {
        matched(predicted, actual, window, (n - 1) as nat) + if first_match(
            predicted[n - 1],
            actual,
            window,
            0,
        ) is Some {
            1nat
        } else {
            0
        }
    }
}

/// The distances in time of those among the first `n` predictions that came true, added up.
pub open spec fn time_total(predicted: Seq<Event>, actual: Seq<Event>, window: int, n: nat) -> int
    decreases n,
{
    if n == 0 {
        0
    } else {
        time_total(predicted, actual, window, (n - 1) as nat) + match first_match(
            predicted[n - 1],
            actual,
            window,
            0,
        ) {
            Some(g) => time_apart(predicted[n - 1], actual[g]),
            None => 0,
        }
    }
}

/// One of the first `n` predictions agrees with the real event `g`.
pub open spec fn was_predicted(
    predicted: Seq<Event>,
    actual: Seq<Event>,
    window: int,
    n: nat,
    g: int,
) -> bool {
    exists|p: int|
        0 <= p < n && agrees(#[trigger] predicted[p], actual[g], window)
}

/// How many of the first `m` real events were predicted.
pub open spec fn recalled(predicted: Seq<Event>, actual: Seq<Event>, window: int, m: nat) -> nat
    decreases m,
{
    if m == 0 {
        0
    } else {
        recalled(predicted, actual, window, (m - 1) as nat) + if was_predicted(
            predicted,
            actual,
            window,
            predicted.len(),
            m - 1,
        ) {
            1nat
        } else {
            0
        }
    }
}

/// What a first match is.
proof fn lemma_first_match(predicted: Event, actual: Seq<Event>, window: int, i: nat)
    ensures
        match first_match(predicted, actual, window, i) {
            Some(g) => i <= g < actual.len() && agrees(predicted, actual[g], window) && forall|k: int|
                i <= k < g ==> !agrees(predicted, #[trigger] actual[k], window),
            None => forall|k: int|
                i <= k < actual.len() ==> !agrees(predicted, #[trigger] actual[k], window),
        },
    decreases actual.len() - i,
{
    if i < actual.len() && !agrees(predicted, actual[i as int], window) {
        lemma_first_match(predicted, actual, window, i + 1);
    }
}

/// Scores predicted collisions against those that took place. A prediction counts as matched if
/// some real collision of the same two balls lies within `time_window` steps of it; its time error
/// is measured against the first such collision. A real collision counts as predicted if it lies
/// that close to any prediction.
pub fn compute_collision_metrics(
    pred_events: &[Event],
    gt_events: &[Event],
    time_window: usize,
) -> (metrics: CollisionMetrics)
    requires
        forall|i: int| 0 <= i < pred_events.len() ==> (#[trigger] pred_events[i]).0 <= isize::MAX,
        forall|i: int| 0 <= i < gt_events.len() ==> (#[trigger] gt_events[i]).0 <= isize::MAX,
    ensures
        ({
            let p = pred_events@;
            let g = gt_events@;
            let w = time_window as int;
            let hits = matched(p, g, w, p.len());
            &&& metrics.accuracy.num == if g.len() > 0 {
                hits as int
            } else if p.len() == 0 {
                1
            } else {
                0
            }
            &&& metrics.accuracy.den == if g.len() > 0 {
                g.len() as int
            } else {
                1
            }
            &&& metrics.time_error.num == time_total(p, g, w, p.len())
            &&& metrics.time_error.den == if hits > 0 {
                hits as int
            } else {
                1
            }
            &&& metrics.recall.num == if g.len() > 0 {
                recalled(p, g, w, g.len()) as int
            } else {
                1
            }
            &&& metrics.recall.den == if g.len() > 0 {
                g.len() as int
            } else {
                1
            }
            &&& metrics.precision.num == if p.len() > 0 {
                hits as int
            } else {
                0
            }
            &&& metrics.precision.den == if p.len() > 0 {
                p.len() as int
            } else {
                1
            }
        }),
{
    let ghost p = pred_events@;
    let ghost g = gt_events@;
    let ghost w = time_window as int;
    let mut hits: u128 = 0;
    let mut total: u128 = 0;
    let mut gt_matched: Vec<bool> = Vec::new();
    for i in 0..gt_events.len()
        invariant
            gt_matched.len() == i,
            forall|k: int| 0 <= k < i ==> !#[trigger] gt_matched[k],
    {
        gt_matched.push(false);
    }
    for pi in 0..pred_events.len()
        invariant
            p == pred_events@,
            g == gt_events@,
            w == time_window,
            forall|i: int| 0 <= i < p.len() ==> (#[trigger] p[i]).0 <= isize::MAX,
            forall|i: int| 0 <= i < g.len() ==> (#[trigger] g[i]).0 <= isize::MAX,
            gt_matched.len() == g.len(),
            hits == matched(p, g, w, pi as nat),
            hits <= pi,
            total == time_total(p, g, w, pi as nat),
            total <= hits * isize::MAX,
            forall|k: int|
                0 <= k < g.len() ==> (#[trigger] gt_matched[k] <==> was_predicted(
                    p,
                    g,
                    w,
                    pi as nat,
                    k,
                )),
    {
        let (pt, pa, pb) = pred_events[pi];
        let mut found: Option<usize> = None;
        for gi in 0..gt_events.len()
            invariant
                pi < p.len(),
                p[pi as int] == (pt, pa, pb),
                g == gt_events@,
                w == time_window,
                gt_matched.len() == g.len(),
                found matches Some(f) ==> f < g.len() && first_match(p[pi as int], g, w, 0) == Some(
                    f as int,
                ),
                found is None ==> first_match(p[pi as int], g, w, 0) == first_match(
                    p[pi as int],
                    g,
                    w,
                    gi as nat,
                ),
                forall|k: int|
                    0 <= k < gi ==> (#[trigger] gt_matched[k] <==> was_predicted(
                        p,
                        g,
                        w,
                        (pi + 1) as nat,
                        k,
                    )),
                forall|k: int|
                    gi <= k < g.len() ==> (#[trigger] gt_matched[k] <==> was_predicted(
                        p,
                        g,
                        w,
                        pi as nat,
                        k,
                    )),
        {
            let (gt, ga, gb) = gt_events[gi];
            let same = (pa == ga && pb == gb) || (pa == gb && pb == ga);
            let dt: usize = if pt > gt {
                pt - gt
            } else {
                gt - pt
            };
            proof {
                lemma_one_more_prediction(p, g, w, pi as nat, gi as int);
            }
            if same && dt <= time_window {
                gt_matched[gi] = true;
                if found.is_none() {
                    found = Some(gi);
                }
            }
        }
        match found {
            Some(f) => {
                let gt: usize = gt_events[f].0;
                let dt: usize = if pt > gt {
                    pt - gt
                } else {
                    gt - pt
                };
                assert(dt <= isize::MAX) by {
                    assert(p[pi as int].0 <= isize::MAX);
                    assert(g[f as int].0 <= isize::MAX);
                }
                assert(total + dt <= (hits + 1) * isize::MAX && (hits + 1) * isize::MAX
                    <= u128::MAX) by (nonlinear_arith)
                    requires
                        total <= hits * isize::MAX,
                        dt <= isize::MAX,
                        hits + 1 <= usize::MAX,
                        usize::MAX <= 0xffff_ffff_ffff_ffff,
                        isize::MAX <= 0x7fff_ffff_ffff_ffff,
                ;
                hits = hits + 1;
                total = total + dt as u128;
            },
            None => {},
        }
    }
    let mut predicted_count: u128 = 0;
    for i in 0..gt_matched.len()
        invariant
            p == pred_events@,
            g == gt_events@,
            w == time_window,
            gt_matched.len() == g.len(),
            predicted_count == recalled(p, g, w, i as nat),
            predicted_count <= i,
            forall|k: int|
                0 <= k < g.len() ==> (#[trigger] gt_matched[k] <==> was_predicted(
                    p,
                    g,
                    w,
                    p.len(),
                    k,
                )),
    {
        if gt_matched[i] {
            predicted_count = predicted_count + 1;
        }
    }
    proof {
        lemma_nothing_matched(p, g, w, p.len());
    }
    let accuracy = if gt_events.len() == 0 {
        if pred_events.len() == 0 {
            Ratio { num: 1, den: 1 }
        } else {
            Ratio { num: 0, den: 1 }
        }
    } else {
        Ratio { num: hits, den: gt_events.len() as u128 }
    };
    let time_error = if hits == 0 {
        Ratio { num: 0, den: 1 }
    } else {
        Ratio { num: total, den: hits }
    };
    let recall = if gt_events.len() == 0 {
        Ratio { num: 1, den: 1 }
    } else {
        Ratio { num: predicted_count, den: gt_events.len() as u128 }
    };
    let precision = if pred_events.len() == 0 {
        Ratio { num: 0, den: 1 }
    } else {
        Ratio { num: hits, den: pred_events.len() as u128 }
    };
    CollisionMetrics { accuracy, time_error, recall, precision }
}

/// A further prediction adds the real events that it agrees with.
proof fn lemma_one_more_prediction(p: Seq<Event>, g: Seq<Event>, w: int, n: nat, k: int)
    ensures
        was_predicted(p, g, w, n + 1, k) <==> was_predicted(p, g, w, n, k) || agrees(
            p[n as int],
            g[k],
            w,
        ),
{
    if was_predicted(p, g, w, n, k) {
        let q = choose|q: int| 0 <= q < n && agrees(#[trigger] p[q], g[k], w);
        assert(agrees(p[q], g[k], w));
    }
    if agrees(p[n as int], g[k], w) {
        assert(0 <= n < n + 1);
    }
}

/// Without a match there is no time error.
proof fn lemma_nothing_matched(p: Seq<Event>, g: Seq<Event>, w: int, n: nat)
    ensures
        matched(p, g, w, n) == 0 ==> time_total(p, g, w, n) == 0,
    decreases n,
{
    if n > 0 {
        lemma_nothing_matched(p, g, w, (n - 1) as nat);
    }
}

/// Precision and recall never exceed one, and the mean time error never exceeds the window.
pub proof fn law_scores_are_bounded(p: Seq<Event>, g: Seq<Event>, w: int)
    requires
        0 <= w,
    ensures
        matched(p, g, w, p.len()) <= p.len(),
        recalled(p, g, w, g.len()) <= g.len(),
        0 <= time_total(p, g, w, p.len()) <= w * matched(p, g, w, p.len()),
{
    lemma_matched_bound(p, g, w, p.len());
    lemma_recalled_bound(p, g, w, g.len());
}

proof fn lemma_matched_bound(p: Seq<Event>, g: Seq<Event>, w: int, n: nat)
    requires
        0 <= w,
        n <= p.len(),
    ensures
        matched(p, g, w, n) <= n,
        0 <= time_total(p, g, w, n) <= w * matched(p, g, w, n),
    decreases n,
{
    if n > 0 {
        let m = matched(p, g, w, (n - 1) as nat);
        lemma_matched_bound(p, g, w, (n - 1) as nat);
        lemma_first_match(p[n - 1], g, w, 0);
        assert(w * (m + 1) == w * m + w) by (nonlinear_arith);
    } else {
        assert(w * 0 == 0) by (nonlinear_arith);
    }
}

proof fn lemma_recalled_bound(p: Seq<Event>, g: Seq<Event>, w: int, m: nat)
    ensures
        recalled(p, g, w, m) <= m,
    decreases m,
{
    if m > 0 {
        lemma_recalled_bound(p, g, w, (m - 1) as nat);
    }
}

/// Predicting exactly what happens gives full marks for accuracy, precision and recall.
pub proof fn law_perfect_prediction(events: Seq<Event>, w: int)
    requires
        0 <= w,
    ensures
        matched(events, events, w, events.len()) == events.len(),
        recalled(events, events, w, events.len()) == events.len(),
{
    lemma_perfect_prefix(events, w, events.len());
}

proof fn lemma_perfect_prefix(events: Seq<Event>, w: int, n: nat)
    requires
        0 <= w,
        n <= events.len(),
    ensures
        matched(events, events, w, n) == n,
        recalled(events, events, w, n) == n,
    decreases n,
{
    if n > 0 {
        lemma_perfect_prefix(events, w, (n - 1) as nat);
        lemma_first_match(events[n - 1], events, w, 0);
        assert(agrees(events[n - 1], events[n - 1], w));
        assert(was_predicted(events, events, w, events.len(), n - 1));
    }
}

/// Two times are at most `window` apart.
pub open spec fn close_in_time(t: int, u: int, window: int) -> bool {
    t - u <= window && u - t <= window
}

/// Two events are of the same two balls, in either order.
pub open spec fn same_balls(a: Event, b: Event) -> bool {
    (a.1 == b.1 && a.2 == b.2) || (a.1 == b.2 && a.2 == b.1)
}

/// A prediction counts if it names the same two balls, in either order, at most `window` steps
/// early or late, and it is off by as many steps as lie between the two times, early or late.
pub proof fn law_one_prediction(prediction: Event, actual: Event, w: int)
    requires
        0 <= w,
    ensures
        ({
            let p = seq![prediction];
            let g = seq![actual];
            let t = prediction.0 as int;
            let u = actual.0 as int;
            if same_balls(prediction, actual) && close_in_time(t, u, w) {
                &&& matched(p, g, w, 1) == 1
                &&& recalled(p, g, w, 1) == 1
                &&& t >= u ==> time_total(p, g, w, 1) == t - u
                &&& t <= u ==> time_total(p, g, w, 1) == u - t
            } else {
                &&& matched(p, g, w, 1) == 0
                &&& recalled(p, g, w, 1) == 0
                &&& time_total(p, g, w, 1) == 0
            }
        }),
{
    let p = seq![prediction];
    let g = seq![actual];
    reveal_with_fuel(matched, 2);
    reveal_with_fuel(time_total, 2);
    reveal_with_fuel(recalled, 2);
    reveal_with_fuel(first_match, 2);
    assert(p[0] == prediction && g[0] == actual);
    if agrees(prediction, actual, w) {
        assert(was_predicted(p, g, w, 1, 0)) by {
            assert(agrees(p[0], g[0], w));
        }
    }
}

/// Among several real events, a prediction is held against the first that it agrees with.
pub proof fn law_first_match_counts(prediction: Event, actual: Seq<Event>, w: int, i: int)
    requires
        0 <= w,
        0 <= i < actual.len(),
        same_balls(prediction, actual[i]),
        close_in_time(prediction.0 as int, actual[i].0 as int, w),
        forall|k: int|
            0 <= k < i ==> !(same_balls(prediction, #[trigger] actual[k]) && close_in_time(
                prediction.0 as int,
                actual[k].0 as int,
                w,
            )),
    ensures
        matched(seq![prediction], actual, w, 1) == 1,
        prediction.0 >= actual[i].0 ==> time_total(seq![prediction], actual, w, 1) == prediction.0
            - actual[i].0,
        prediction.0 <= actual[i].0 ==> time_total(seq![prediction], actual, w, 1) == actual[i].0
            - prediction.0,
{
    reveal_with_fuel(matched, 2);
    reveal_with_fuel(time_total, 2);
    lemma_first_match(prediction, actual, w, 0);
    assert(agrees(prediction, actual[i], w));
    let g = first_match(prediction, actual, w, 0);
    assert(g == Some(i)) by {
        if g is Some && g->0 < i {
            assert(agrees(prediction, actual[g->0], w));
        }
    }
    assert(seq![prediction][0] == prediction);
}

/// A real event counts as predicted if and only if some prediction names the same two balls close
/// enough to its time.
pub proof fn law_recall_takes_any_prediction(p: Seq<Event>, actual: Event, w: int)
    ensures
        recalled(p, seq![actual], w, 1) <= 1,
        recalled(p, seq![actual], w, 1) == 1 <==> exists|k: int|
            0 <= k < p.len() && same_balls(#[trigger] p[k], actual) && close_in_time(
                p[k].0 as int,
                actual.0 as int,
                w,
            ),
{
    let g = seq![actual];
    reveal_with_fuel(recalled, 2);
    assert(g[0] == actual);
    if exists|k: int|
        0 <= k < p.len() && same_balls(#[trigger] p[k], actual) && close_in_time(
            p[k].0 as int,
            actual.0 as int,
            w,
        ) {
        let k = choose|k: int|
            0 <= k < p.len() && same_balls(#[trigger] p[k], actual) && close_in_time(
                p[k].0 as int,
                actual.0 as int,
                w,
            );
        assert(agrees(p[k], g[0], w));
        assert(was_predicted(p, g, w, p.len(), 0));
    }
    if was_predicted(p, g, w, p.len(), 0) {
        let k = choose|k: int| 0 <= k < p.len() && agrees(#[trigger] p[k], g[0], w);
        assert(same_balls(p[k], actual));
    }
}

/// Predictions are scored one by one: scores of lists add up.
pub proof fn law_predictions_add_up(p: Seq<Event>, q: Seq<Event>, g: Seq<Event>, w: int)
    ensures
        matched(p + q, g, w, (p + q).len()) == matched(p, g, w, p.len()) + matched(
            q,
            g,
            w,
            q.len(),
        ),
        time_total(p + q, g, w, (p + q).len()) == time_total(p, g, w, p.len()) + time_total(
            q,
            g,
            w,
            q.len(),
        ),
{
    lemma_first_scores(p, q, g, w, p.len());
    lemma_last_scores(p, q, g, w, q.len());
}

proof fn lemma_first_scores(p: Seq<Event>, q: Seq<Event>, g: Seq<Event>, w: int, n: nat)
    requires
        n <= p.len(),
    ensures
        matched(p + q, g, w, n) == matched(p, g, w, n),
        time_total(p + q, g, w, n) == time_total(p, g, w, n),
    decreases n,
{
    if n > 0 {
        lemma_first_scores(p, q, g, w, (n - 1) as nat);
        assert((p + q)[n - 1] == p[n - 1]);
    }
}

proof fn lemma_last_scores(p: Seq<Event>, q: Seq<Event>, g: Seq<Event>, w: int, n: nat)
    requires
        n <= q.len(),
    ensures
        matched(p + q, g, w, p.len() + n) == matched(p, g, w, p.len()) + matched(q, g, w, n),
        time_total(p + q, g, w, p.len() + n) == time_total(p, g, w, p.len()) + time_total(
            q,
            g,
            w,
            n,
        ),
    decreases n,
{
    lemma_first_scores(p, q, g, w, p.len());
    if n > 0 {
        lemma_last_scores(p, q, g, w, (n - 1) as nat);
        assert((p + q)[p.len() + n - 1] == q[n - 1]);
    }
}

/// Real events are recalled one by one: recall of lists adds up.
pub proof fn law_recall_adds_up(p: Seq<Event>, g: Seq<Event>, h: Seq<Event>, w: int)
    ensures
        recalled(p, g + h, w, (g + h).len()) == recalled(p, g, w, g.len()) + recalled(
            p,
            h,
            w,
            h.len(),
        ),
{
    lemma_recall_of_first(p, g, h, w, g.len());
    lemma_recall_of_last(p, g, h, w, h.len());
}

proof fn lemma_recall_of_first(p: Seq<Event>, g: Seq<Event>, h: Seq<Event>, w: int, n: nat)
    requires
        n <= g.len(),
    ensures
        recalled(p, g + h, w, n) == recalled(p, g, w, n),
    decreases n,
{
    if n > 0 {
        lemma_recall_of_first(p, g, h, w, (n - 1) as nat);
        assert((g + h)[n - 1] == g[n - 1]);
        assert(was_predicted(p, g + h, w, p.len(), n - 1) == was_predicted(
            p,
            g,
            w,
            p.len(),
            n - 1,
        ));
    }
}

proof fn lemma_recall_of_last(p: Seq<Event>, g: Seq<Event>, h: Seq<Event>, w: int, n: nat)
    requires
        n <= h.len(),
    ensures
        recalled(p, g + h, w, g.len() + n) == recalled(p, g, w, g.len()) + recalled(p, h, w, n),
    decreases n,
{
    lemma_recall_of_first(p, g, h, w, g.len());
    if n > 0 {
        lemma_recall_of_last(p, g, h, w, (n - 1) as nat);
        assert((g + h)[g.len() + n - 1] == h[n - 1]);
        assert(was_predicted(p, g + h, w, p.len(), g.len() + n - 1) == was_predicted(
            p,
            h,
            w,
            p.len(),
            n - 1,
        ));
    }
}

/// All times of `q` are those of `p`, `c` steps later.
pub open spec fn shifted(p: Seq<Event>, q: Seq<Event>, c: int) -> bool {
    forall|i: int| 0 <= i < p.len() ==> q[i].0 == (#[trigger] p[i]).0 + c
}

/// All times of `q` are those of `p`, counted back from `c`.
pub open spec fn mirrored(p: Seq<Event>, q: Seq<Event>, c: int) -> bool {
    forall|i: int| 0 <= i < p.len() ==> q[i].0 == c - (#[trigger] p[i]).0
}

/// Times only matter by how far they lie apart, and the order of two balls does not matter at all:
/// where all times of both lists are shifted alike or run backwards, all scores stay as they are.
pub proof fn law_scores_are_relative(
    p: Seq<Event>,
    g: Seq<Event>,
    q: Seq<Event>,
    h: Seq<Event>,
    w: int,
    c: int,
)
    requires
        q.len() == p.len(),
        h.len() == g.len(),
        forall|i: int| 0 <= i < p.len() ==> same_balls(#[trigger] p[i], q[i]),
        forall|i: int| 0 <= i < g.len() ==> same_balls(#[trigger] g[i], h[i]),
        (shifted(p, q, c) && shifted(g, h, c)) || (mirrored(p, q, c) && mirrored(g, h, c)),
    ensures
        matched(q, h, w, q.len()) == matched(p, g, w, p.len()),
        time_total(q, h, w, q.len()) == time_total(p, g, w, p.len()),
        recalled(q, h, w, h.len()) == recalled(p, g, w, g.len()),
{
    assert forall|i: int, j: int| 0 <= i < p.len() && 0 <= j < g.len() implies agrees(
        #[trigger] q[i],
        #[trigger] h[j],
        w,
    ) == agrees(p[i], g[j], w) && time_apart(q[i], h[j]) == time_apart(p[i], g[j]) by {
        assert(same_balls(p[i], q[i]) && same_balls(g[j], h[j]));
    }
    lemma_alike(p, g, q, h, w, p.len());
    lemma_recalled_alike(p, g, q, h, w, g.len());
}

proof fn lemma_match_alike(x: Event, y: Event, g: Seq<Event>, h: Seq<Event>, w: int, i: nat)
    requires
        h.len() == g.len(),
        forall|j: int| 0 <= j < g.len() ==> agrees(y, #[trigger] h[j], w) == agrees(x, g[j], w),
    ensures
        first_match(y, h, w, i) == first_match(x, g, w, i),
    decreases g.len() - i,
{
    if i < g.len() {
        assert(agrees(y, h[i as int], w) == agrees(x, g[i as int], w));
        lemma_match_alike(x, y, g, h, w, i + 1);
    }
}

proof fn lemma_alike(
    p: Seq<Event>,
    g: Seq<Event>,
    q: Seq<Event>,
    h: Seq<Event>,
    w: int,
    n: nat,
)
    requires
        q.len() == p.len(),
        h.len() == g.len(),
        n <= p.len(),
        forall|i: int, j: int|
            0 <= i < p.len() && 0 <= j < g.len() ==> agrees(#[trigger] q[i], #[trigger] h[j], w)
                == agrees(p[i], g[j], w) && time_apart(q[i], h[j]) == time_apart(p[i], g[j]),
    ensures
        matched(q, h, w, n) == matched(p, g, w, n),
        time_total(q, h, w, n) == time_total(p, g, w, n),
    decreases n,
{
    if n > 0 {
        lemma_alike(p, g, q, h, w, (n - 1) as nat);
        lemma_match_alike(p[n - 1], q[n - 1], g, h, w, 0);
        lemma_first_match(p[n - 1], g, w, 0);
        if let Some(k) = first_match(p[n - 1], g, w, 0) {
            assert(time_apart(q[n - 1], h[k]) == time_apart(p[n - 1], g[k]));
        }
    }
}

proof fn lemma_recalled_alike(
    p: Seq<Event>,
    g: Seq<Event>,
    q: Seq<Event>,
    h: Seq<Event>,
    w: int,
    m: nat,
)
    requires
        q.len() == p.len(),
        h.len() == g.len(),
        m <= g.len(),
        forall|i: int, j: int|
            0 <= i < p.len() && 0 <= j < g.len() ==> agrees(#[trigger] q[i], #[trigger] h[j], w)
                == agrees(p[i], g[j], w) && time_apart(q[i], h[j]) == time_apart(p[i], g[j]),
    ensures
        recalled(q, h, w, m) == recalled(p, g, w, m),
    decreases m,
{
    if m > 0 {
        lemma_recalled_alike(p, g, q, h, w, (m - 1) as nat);
        let k = m - 1;
        if was_predicted(p, g, w, p.len(), k) {
            let i = choose|i: int| 0 <= i < p.len() && agrees(#[trigger] p[i], g[k], w);
            assert(agrees(q[i], h[k], w));
        }
        if was_predicted(q, h, w, q.len(), k) {
            let i = choose|i: int| 0 <= i < q.len() && agrees(#[trigger] q[i], h[k], w);
            assert(agrees(p[i], g[k], w));
        }
    }
}

/// A track is measured step by step: the first step by the two places at it, the way from it to the
/// second by the two places at both, and the rest is the measure of the rest.
pub proof fn law_tracks_are_measured_step_by_step<
    P,
    S,
    E: Fn(&P, &P) -> S,
    D: Fn(&P, &P, &P, &P) -> S,
>(
    pred: Seq<Vec<P>>,
    gt: Seq<Vec<P>>,
    i: int,
    n: int,
    errors: Seq<S>,
    drifts: Seq<S>,
    error: E,
    drift: D,
)
    requires
        track_errors(pred, gt, i, n, errors, drifts, error, drift),
        2 <= n <= pred.len(),
        n <= gt.len(),
    ensures
        error.ensures((&pred[0][i], &gt[0][i]), errors[0]),
        drift.ensures((&pred[0][i], &pred[1][i], &gt[0][i], &gt[1][i]), drifts[0]),
        errors.len() == drifts.len() + 1,
        track_errors(
            pred.drop_first(),
            gt.drop_first(),
            i,
            n - 1,
            errors.drop_first(),
            drifts.drop_first(),
            error,
            drift,
        ),
{
    assert(errors[0] == errors[0]);
    assert(drifts[0] == drifts[0]);
    let late_pred = pred.drop_first();
    let late_gt = gt.drop_first();
    let late_errors = errors.drop_first();
    let late_drifts = drifts.drop_first();
    assert forall|t: int| 0 <= t < n - 1 implies error.ensures(
        (&late_pred[t][i], &late_gt[t][i]),
        #[trigger] late_errors[t],
    ) by {
        assert(late_errors[t] == errors[t + 1]);
    }
    assert forall|t: int| 0 <= t < n - 2 implies drift.ensures(
        (&late_pred[t][i], &late_pred[t + 1][i], &late_gt[t][i], &late_gt[t + 1][i]),
        #[trigger] late_drifts[t],
    ) by {
        assert(late_drifts[t] == drifts[t + 1]);
    }
}

/// Only steps that both tracks have are measured, and all of them.
pub proof fn law_common_steps_are_measured<P>(pred: Seq<Vec<P>>, gt: Seq<Vec<P>>, t: int)
    requires
        0 <= t,
    ensures
        t < common_steps(pred, gt) <==> t < pred.len() && t < gt.len(),
{
}

/// Two steps are enough to be measured, and fewer are not: of a track with two common steps or more
/// every step has an error and every way between two a drift, and of a shorter one nothing has.
pub proof fn law_two_steps_are_enough<
    P,
    S,
    M,
    E: Fn(&P, &P) -> S,
    D: Fn(&P, &P, &P, &P) -> S,
    F: Fn(&Vec<S>, &Vec<S>) -> M,
>(
    pred: Seq<Vec<P>>,
    gt: Seq<Vec<P>>,
    i: int,
    n: int,
    metrics: M,
    error: E,
    drift: D,
    summary: F,
)
    requires
        summed_up(pred, gt, i, n, metrics, error, drift, summary),
        0 <= n,
    ensures
        exists|errors: Vec<S>, drifts: Vec<S>|
            {
                &&& #[trigger] summary.ensures((&errors, &drifts), metrics)
                &&& n >= 2 ==> errors.len() == n && drifts.len() == n - 1 && error.ensures(
                    (&pred[n - 1][i], &gt[n - 1][i]),
                    errors[n - 1],
                )
                &&& n < 2 ==> errors.len() == 0 && drifts.len() == 0
            },
{
    let (errors, drifts) = choose|errors: Vec<S>, drifts: Vec<S>|
        {
            &&& #[trigger] summary.ensures((&errors, &drifts), metrics)
            &&& if n < 2 {
                errors.len() == 0 && drifts.len() == 0
            } else {
                track_errors(pred, gt, i, n, errors@, drifts@, error, drift)
            }
        };
    if n >= 2 {
        assert(errors@[n - 1] == errors[n - 1]);
    }
    assert(summary.ensures((&errors, &drifts), metrics));
}

} // verus!
