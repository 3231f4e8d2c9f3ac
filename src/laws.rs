//! Properties that relate several operations on timelines.

use vstd::prelude::*;
use crate::easing::AnimationLinker;
use crate::model::{
    TimelineView,
    all_non_negative,
    in_time_range,
    lemma_nearest_unique,
    lemma_prefix_concat,
    lemma_prefix_insert,
    lemma_prefix_monotone,
    lemma_prefix_step,
    lemma_prefix_update,
    lemma_stage_in_range,
    near,
    with_sustain,
};
use crate::scalar::Scalar;
use crate::timeline::{Linker, INSERT_EPSILON, REMOVE_EPSILON};

verus! {

/// Where an interior insertion lands: every segment before it is passed,
/// and it is a landing unless it is `len()`.
proof fn lemma_landing(v: TimelineView, time: int, eps: int, i: int)
    requires
        0 <= i <= v.len(),
    ensures
        i <= v.landing_from(time, eps, i) <= v.len(),
        forall|j: int|
            i <= j < v.landing_from(time, eps, i) ==> !#[trigger] v.lands_in(time, eps, j),
        v.landing_from(time, eps, i) < v.len() ==> v.lands_in(
            time,
            eps,
            v.landing_from(time, eps, i),
        ),
    decreases v.len() - i,
{
    if i < v.len() && !v.lands_in(time, eps, i) {
        lemma_landing(v, time, eps, i + 1);
    }
}

/// Stage `i` is at distance zero from `time` and every other stage is
/// farther: it is the one a removal at `time` takes.
proof fn lemma_removed_at(w: TimelineView, time: int, eps: int, i: int)
    requires
        0 <= i <= w.len(),
        0 <= eps,
        w.stage(i) == time,
        forall|j: int| 0 <= j <= w.len() && j != i ==> #[trigger] w.gap(time, j) > 0,
    ensures
        w.removed(time, eps) == w.without_stage(i),
{
    assert(w.gap(time, i) == 0);
    assert(w.is_nearest(time, eps, i));
    let c = choose|c: int| w.is_nearest(time, eps, c);
    lemma_nearest_unique(w, time, eps, c, i);
}

/// Timelines with no segment of negative length have no active segment
/// before their start, nor at or after their end.
pub proof fn lemma_no_segment_outside(v: TimelineView, t: int)
    requires
        all_non_negative(v.linkers),
        t < v.start_time || t >= v.end_time(),
    ensures
        forall|i: int| !#[trigger] v.active(t, i),
{
    assert forall|i: int| !#[trigger] v.active(t, i) by {
        if 0 <= i < v.len() {
            lemma_prefix_monotone(v.linkers, 0, i);
            lemma_prefix_monotone(v.linkers, i + 1, v.len());
        }
    }
}

/// At its start instant, a timeline whose first segment lasts a positive
/// time (and none a negative one) is in its first segment, with no time
/// elapsed, starting from the timeline's start value.
pub proof fn lemma_first_segment_at_start(v: TimelineView)
    requires
        all_non_negative(v.linkers),
        v.len() > 0,
        v.linkers[0].sustain_time > 0,
    ensures
        v.active(v.start_time, 0),
        forall|j: int| 0 < j ==> !#[trigger] v.active(v.start_time, j),
        v.segment_at(v.start_time, 0).elapsed == 0,
        v.segment_at(v.start_time, 0).start_value == v.start_value,
{
    lemma_prefix_step(v.linkers, 0);
    assert forall|j: int| 0 < j implies !#[trigger] v.active(v.start_time, j) by {
        if 0 < j < v.len() {
            lemma_prefix_monotone(v.linkers, 1, j);
        }
    }
}

/// Inserting a linear keyframe at an instant that is not within the
/// insertion tolerance of any stage, then removing the keyframe at that
/// instant, gives back the timeline, segment for segment.
pub proof fn lemma_insert_then_remove(v: TimelineView, t: int, value: Scalar)
    requires
        v.in_range(),
        all_non_negative(v.linkers),
        in_time_range(t),
        forall|j: int| 0 <= j <= v.len() ==> !near(t, #[trigger] v.stage(j), INSERT_EPSILON as int),
    ensures
        v.inserted(t, value, AnimationLinker::Linear, INSERT_EPSILON as int).removed(
            t,
            REMOVE_EPSILON as int,
        ) == v,
{
    let eps = INSERT_EPSILON as int;
    let ls = v.linkers;
    let n = v.len();
    let w = v.inserted(t, value, AnimationLinker::Linear, eps);
    lemma_stage_in_range(v, 0);
    lemma_stage_in_range(v, n);
    assert(!near(t, v.stage(0), eps));
    assert(!near(t, v.stage(n), eps));
    if t < v.start_time {
        let x = Linker {
            end_value: v.start_value,
            sustain_time: (v.start_time - t) as i128,
            linker: AnimationLinker::Linear,
        };
        assert(w.linkers == ls.insert(0, x));
        assert forall|j: int| 0 <= j <= w.len() && j != 0 implies #[trigger] w.gap(t, j) > 0 by {
            lemma_prefix_insert(ls, 0, x, j);
            lemma_stage_in_range(v, j - 1);
            lemma_prefix_monotone(ls, 0, j - 1);
        }
        lemma_prefix_insert(ls, 0, x, 0);
        lemma_removed_at(w, t, REMOVE_EPSILON as int, 0);
        lemma_prefix_insert(ls, 0, x, 1);
        assert(w.linkers.remove(0) =~= ls);
    } else if t - v.end_time() > eps {
        let x = Linker {
            end_value: value,
            sustain_time: (t - v.end_time()) as i128,
            linker: AnimationLinker::Linear,
        };
        assert(w.linkers =~= ls.insert(n, x));
        assert forall|j: int| 0 <= j <= w.len() && j != n + 1 implies #[trigger] w.gap(t, j) > 0 by {
            lemma_prefix_insert(ls, n, x, j);
            assert(!near(t, v.stage(j), eps));
        }
        lemma_prefix_insert(ls, n, x, n + 1);
        lemma_removed_at(w, t, REMOVE_EPSILON as int, n + 1);
        assert(w.linkers.drop_last() =~= ls);
    } else {
        assert(t < v.end_time());
        assert(n > 0) by {
            if n == 0 {
                assert(v.end_time() == v.start_time);
            }
        }
        lemma_landing(v, t, eps, 0);
        let i = v.landing_from(t, eps, 0);
        assert(v.lands_in(t, eps, n - 1)) by {
            lemma_prefix_step(ls, n - 1);
        }
        assert(i < n);
        assert(!near(t, v.stage(i + 1), eps));
        lemma_prefix_step(ls, i);
        assert(v.stage(i) <= t) by {
            if i > 0 {
                assert(!v.lands_in(t, eps, i - 1));
                lemma_prefix_step(ls, i - 1);
            }
        }
        lemma_stage_in_range(v, i);
        lemma_stage_in_range(v, i + 1);
        let rest = with_sustain(ls[i], v.stage(i + 1) - t);
        let ls1 = ls.update(i, rest);
        let x = Linker {
            end_value: value,
            sustain_time: (t - v.stage(i)) as i128,
            linker: AnimationLinker::Linear,
        };
        assert(w.linkers == ls1.insert(i, x));
        assert forall|j: int| 0 <= j <= w.len() implies #[trigger] w.stage(j) == if j <= i {
            v.stage(j)
        } else if j == i + 1 {
            t
        } else {
            v.stage(j - 1)
        } by {
            lemma_prefix_insert(ls1, i, x, j);
            if j <= i {
                lemma_prefix_update(ls, i, rest, j);
            } else {
                lemma_prefix_update(ls, i, rest, j - 1);
            }
        }
        assert forall|j: int| 0 <= j <= w.len() && j != i + 1 implies #[trigger] w.gap(t, j) > 0 by {
            assert(w.stage(j) == if j <= i {
                v.stage(j)
            } else {
                v.stage(j - 1)
            });
            if j <= i {
                assert(!near(t, v.stage(j), eps));
            } else {
                assert(!near(t, v.stage(j - 1), eps));
            }
        }
        assert(w.stage(i + 1) == t);
        lemma_removed_at(w, t, REMOVE_EPSILON as int, i + 1);
        assert(w.linkers[i] == x);
        assert(w.linkers[i + 1] == rest);
        assert(with_sustain(rest, x.sustain_time + rest.sustain_time) == ls[i]);
        assert(w.linkers.update(i + 1, ls[i]).remove(i) =~= ls);
    }
}

/// Merging a timeline with one that starts more than the insertion
/// tolerance after it ends bridges the gap with one segment: the result has
/// the stages of the first, then those of the second, and the bridge ends at
/// the second's start value.
pub proof fn lemma_combine_disjoint(a: TimelineView, b: TimelineView, linker: AnimationLinker)
    requires
        a.in_range(),
        b.in_range(),
        all_non_negative(a.linkers),
        a.end_time() + INSERT_EPSILON < b.start_time,
    ensures
        a.combined(b, linker).start_time == a.start_time,
        a.combined(b, linker).start_value == a.start_value,
        a.combined(b, linker).len() == a.len() + 1 + b.len(),
        a.combined(b, linker).linkers[a.len()] == (Linker {
            end_value: b.start_value,
            sustain_time: (b.start_time - a.end_time()) as i128,
            linker,
        }),
        forall|j: int| 0 <= j <= a.len() ==> #[trigger] a.combined(b, linker).stage(j) == a.stage(j),
        forall|j: int|
            0 <= j <= b.len() ==> #[trigger] a.combined(b, linker).stage(a.len() + 1 + j)
                == b.stage(j),
{
    let n = a.len();
    let r = a.combined(b, linker);
    lemma_prefix_monotone(a.linkers, 0, n);
    lemma_stage_in_range(a, n);
    lemma_stage_in_range(b, 0);
    assert(!a.crosses(b));
    let x = Linker {
        end_value: b.start_value,
        sustain_time: (b.start_time - a.end_time()) as i128,
        linker,
    };
    let ins = a.linkers.push(x);
    assert(r.linkers == ins + b.linkers);
    assert(ins =~= a.linkers.insert(n, x));
    assert forall|j: int| 0 <= j <= n implies #[trigger] r.stage(j) == a.stage(j) by {
        lemma_prefix_concat(ins, b.linkers, j);
        lemma_prefix_insert(a.linkers, n, x, j);
    }
    assert forall|j: int| 0 <= j <= b.len() implies #[trigger] r.stage(n + 1 + j) == b.stage(j) by {
        lemma_prefix_concat(ins, b.linkers, n + 1 + j);
        lemma_prefix_insert(a.linkers, n, x, n + 1);
    }
}

} // verus!
