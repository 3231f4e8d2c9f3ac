//! The mathematical model of a timeline: its stages, and what each
//! editing operation makes of it.

use vstd::prelude::*;
use crate::easing::AnimationLinker;
use crate::scalar::Scalar;
use crate::timeline::{ActiveSegment, Linker, INSERT_EPSILON, MAX_NANOS, MIN_NANOS};

verus! {

/// The mathematical content of a timeline ([`crate::timeline::Animation`]).
pub struct TimelineView {
    pub start_time: int,
    pub start_value: Scalar,
    pub linkers: Seq<Linker>,
}

/// Absolute value.
pub open spec fn abs(x: int) -> int {
    if x < 0 {
        -x
    } else {
        x
    }
}

/// `a` lies within `eps` of `b`.
pub open spec fn near(a: int, b: int, eps: int) -> bool {
    abs(a - b) <= eps
}

/// `t` is an instant a timeline can reach.
pub open spec fn in_time_range(t: int) -> bool {
    MIN_NANOS <= t <= MAX_NANOS
}

/// Total sustain time of the first `i` segments.
pub open spec fn prefix(ls: Seq<Linker>, i: int) -> int
    decreases i,
{
    if i <= 0 {
        0
    } else {
        prefix(ls, i - 1) + ls[i - 1].sustain_time
    }
}

pub open spec fn all_non_negative(ls: Seq<Linker>) -> bool {
    forall|i: int| 0 <= i < ls.len() ==> #[trigger] ls[i].sustain_time >= 0
}

pub open spec fn with_sustain(l: Linker, s: int) -> Linker {
    Linker { end_value: l.end_value, sustain_time: s as i128, linker: l.linker }
}

impl TimelineView {
    pub open spec fn len(self) -> int {
        self.linkers.len() as int
    }

    /// Absolute time of stage `i`, for `0 <= i <= len()`.
    pub open spec fn stage(self, i: int) -> int {
        self.start_time + prefix(self.linkers, i)
    }

    pub open spec fn duration(self) -> int {
        prefix(self.linkers, self.len())
    }

    pub open spec fn end_time(self) -> int {
        self.stage(self.len())
    }

    /// Every stage boundary is an instant a timeline can reach.
    pub open spec fn in_range(self) -> bool {
        forall|i: int| 0 <= i <= self.len() ==> #[trigger] in_time_range(self.stage(i))
    }

    pub open spec fn end_value(self) -> Scalar {
        if self.len() == 0 {
            self.start_value
        } else {
            self.linkers.last().end_value
        }
    }

    /// Value at the start of segment `i`.
    pub open spec fn value_before(self, i: int) -> Scalar {
        if i == 0 {
            self.start_value
        } else {
            self.linkers[i - 1].end_value
        }
    }

    /// The spans `[start_time, end_time]` of the two timelines meet.
    pub open spec fn crosses(self, other: TimelineView) -> bool {
        (self.end_time() >= other.start_time && self.start_time <= other.start_time)
            || (other.end_time() >= self.start_time && other.start_time <= self.start_time)
    }
}

impl TimelineView {
    /// Segment `i` is active at `t`: `stage(i) <= t < stage(i + 1)`.
    pub open spec fn active(self, t: int, i: int) -> bool {
        0 <= i < self.len() && self.stage(i) <= t < self.stage(i + 1)
    }

    /// What evaluating segment `i` at `t` needs.
    pub open spec fn segment_at(self, t: int, i: int) -> ActiveSegment {
        ActiveSegment {
            index: i as usize,
            start_value: self.value_before(i),
            end_value: self.linkers[i].end_value,
            linker: self.linkers[i].linker,
            elapsed: (t - self.stage(i)) as i128,
            span: (self.stage(i + 1) - self.stage(i)) as i128,
        }
    }
}

impl TimelineView {
    /// An interior insertion at `time` lands in segment `i`: near its end
    /// boundary, or strictly before that boundary.
    pub open spec fn lands_in(self, time: int, eps: int, i: int) -> bool {
        near(time, self.stage(i + 1), eps) || time - self.stage(i) < self.linkers[i].sustain_time
    }

    /// The first segment from `i` on in which an interior insertion at
    /// `time` lands, or `len()` if there is none.
    pub open spec fn landing_from(self, time: int, eps: int, i: int) -> int
        decreases self.len() - i,
    {
        if i >= self.len() {
            self.len()
        } else if self.lands_in(time, eps, i) {
            i
        } else {
            self.landing_from(time, eps, i + 1)
        }
    }

    /// The timeline after a keyframe of `value` is placed at `time`, reached
    /// through `linker`; a stage boundary within `eps` of `time` is moved
    /// there instead of a new one being made.
    pub open spec fn inserted(self, time: int, value: Scalar, linker: AnimationLinker, eps: int) -> TimelineView {
        let n = self.len();
        if near(time, self.start_time, eps) {
            TimelineView {
                start_time: time,
                start_value: value,
                linkers: if n == 0 {
                    self.linkers
                } else {
                    self.linkers.update(0, with_sustain(self.linkers[0], self.stage(1) - time))
                },
            }
        } else if time < self.start_time {
            TimelineView {
                start_time: time,
                start_value: value,
                linkers: self.linkers.insert(
                    0,
                    Linker {
                        end_value: self.start_value,
                        sustain_time: (self.start_time - time) as i128,
                        linker,
                    },
                ),
            }
        } else if time - self.end_time() > eps {
            TimelineView {
                start_time: self.start_time,
                start_value: self.start_value,
                linkers: self.linkers.push(
                    Linker {
                        end_value: value,
                        sustain_time: (time - self.end_time()) as i128,
                        linker,
                    },
                ),
            }
        } else {
            let i = self.landing_from(time, eps, 0);
            if i >= n {
                self
            } else if near(time, self.stage(i + 1), eps) {
                let ls = if i + 1 < n {
                    self.linkers.update(
                        i + 1,
                        with_sustain(self.linkers[i + 1], self.stage(i + 2) - time),
                    )
                } else {
                    self.linkers
                };
                TimelineView {
                    start_time: self.start_time,
                    start_value: self.start_value,
                    linkers: ls.update(
                        i,
                        Linker {
                            end_value: value,
                            sustain_time: abs(time - self.stage(i)) as i128,
                            linker,
                        },
                    ),
                }
            } else {
                TimelineView {
                    start_time: self.start_time,
                    start_value: self.start_value,
                    linkers: self.linkers.update(
                        i,
                        with_sustain(self.linkers[i], self.stage(i + 1) - time),
                    ).insert(
                        i,
                        Linker {
                            end_value: value,
                            sustain_time: (time - self.stage(i)) as i128,
                            linker,
                        },
                    ),
                }
            }
        }
    }
}

impl TimelineView {
    /// Distance from `time` to stage `i`.
    pub open spec fn gap(self, time: int, i: int) -> int {
        abs(time - self.stage(i))
    }

    /// Stage `i` is the one a removal at `time` takes: within `eps` of
    /// `time`, nearer than every earlier stage and no farther than any later.
    pub open spec fn is_nearest(self, time: int, eps: int, i: int) -> bool {
        &&& 0 <= i <= self.len()
        &&& self.gap(time, i) <= eps
        &&& forall|j: int| 0 <= j < i ==> #[trigger] self.gap(time, j) > self.gap(time, i)
        &&& forall|j: int| i < j <= self.len() ==> #[trigger] self.gap(time, j) >= self.gap(time, i)
    }

    /// The timeline without stage `id`: without its first segment when
    /// `id == 0` (the empty timeline when there is none), with segments
    /// `id - 1` and `id` joined into one that keeps the latter's end value
    /// and easing when `0 < id < len()`, and without its last segment
    /// otherwise.
    pub open spec fn without_stage(self, id: int) -> TimelineView {
        let n = self.len();
        if id == 0 {
            if n == 0 {
                empty_timeline()
            } else {
                TimelineView {
                    start_time: self.stage(1),
                    start_value: self.linkers[0].end_value,
                    linkers: self.linkers.remove(0),
                }
            }
        } else if id < n {
            TimelineView {
                start_time: self.start_time,
                start_value: self.start_value,
                linkers: self.linkers.update(
                    id,
                    with_sustain(
                        self.linkers[id],
                        self.linkers[id - 1].sustain_time + self.linkers[id].sustain_time,
                    ),
                ).remove(id - 1),
            }
        } else {
            TimelineView {
                start_time: self.start_time,
                start_value: self.start_value,
                linkers: self.linkers.drop_last(),
            }
        }
    }

    /// The timeline after removing the stage nearest `time` within `eps`,
    /// or unchanged when no stage is that near.
    pub open spec fn removed(self, time: int, eps: int) -> TimelineView {
        if exists|i: int| self.is_nearest(time, eps, i) {
            self.without_stage(choose|i: int| self.is_nearest(time, eps, i))
        } else {
            self
        }
    }
}

/// At most one stage is the nearest.
pub proof fn lemma_nearest_unique(v: TimelineView, time: int, eps: int, i: int, j: int)
    requires
        v.is_nearest(time, eps, i),
        v.is_nearest(time, eps, j),
    ensures
        i == j,
{
    if i < j {
        assert(v.gap(time, i) > v.gap(time, j));
    } else if j < i {
        assert(v.gap(time, j) > v.gap(time, i));
    }
}

impl TimelineView {
    /// The first segment from `i` on that ends after `t`, or `len()` if
    /// there is none.
    pub open spec fn passing_from(self, t: int, i: int) -> int
        decreases self.len() - i,
    {
        if i >= self.len() {
            self.len()
        } else if self.stage(i + 1) > t {
            i
        } else {
            self.passing_from(t, i + 1)
        }
    }
}

/// `earlier` takes over the trajectory of `later`, which starts within its
/// span: the segment of `earlier` that passes `later`'s start gives way to a
/// bridge through `linker` that ends there at `later`'s start value, and the
/// segments of `later` follow, written over those of `earlier` after the
/// bridge; what is left of `earlier` beyond them stays at the end.
pub open spec fn overlaid(earlier: TimelineView, later: TimelineView, linker: AnimationLinker) -> TimelineView {
    let n = earlier.len();
    let k = earlier.passing_from(later.start_time, 0);
    let bridge = Linker {
        end_value: later.start_value,
        sustain_time: (later.start_time - earlier.stage(k)) as i128,
        linker,
    };
    let rest = if k + 1 + later.len() < n {
        earlier.linkers.subrange(k + 1 + later.len(), n)
    } else {
        Seq::empty()
    };
    TimelineView {
        start_time: earlier.start_time,
        start_value: earlier.start_value,
        linkers: earlier.linkers.subrange(0, k) + seq![bridge] + later.linkers + rest,
    }
}

/// `earlier` gets a keyframe at `later`'s start (as `insert_point` places
/// it), and the segments of `later` follow.
pub open spec fn joined(earlier: TimelineView, later: TimelineView, linker: AnimationLinker) -> TimelineView {
    let ins = earlier.inserted(
        later.start_time,
        later.start_value,
        linker,
        INSERT_EPSILON as int,
    );
    TimelineView {
        start_time: ins.start_time,
        start_value: ins.start_value,
        linkers: ins.linkers + later.linkers,
    }
}

impl TimelineView {
    /// The merge of two timelines, bridged by `linker`. The one that starts
    /// first (`self` on a tie) is the earlier; when the spans meet the
    /// earlier takes over the later's trajectory, otherwise the gap between
    /// them is bridged.
    pub open spec fn combined(self, other: TimelineView, linker: AnimationLinker) -> TimelineView {
        let other_first = self.start_time > other.start_time;
        let earlier = if other_first {
            other
        } else {
            self
        };
        let later = if other_first {
            self
        } else {
            other
        };
        if self.crosses(other) {
            overlaid(earlier, later, linker)
        } else {
            joined(earlier, later, linker)
        }
    }
}

pub open spec fn empty_timeline() -> TimelineView {
    TimelineView { start_time: 0, start_value: Scalar { bits: 0 }, linkers: Seq::empty() }
}

// Lemmas on `prefix`.

pub proof fn lemma_prefix_step(ls: Seq<Linker>, i: int)
    requires
        0 <= i,
    ensures
        prefix(ls, i + 1) == prefix(ls, i) + ls[i].sustain_time,
{
}

pub proof fn lemma_prefix_monotone(ls: Seq<Linker>, i: int, j: int)
    requires
        all_non_negative(ls),
        0 <= i <= j <= ls.len(),
    ensures
        prefix(ls, i) <= prefix(ls, j),
    decreases j - i,
{
    if i < j {
        lemma_prefix_monotone(ls, i, j - 1);
        assert(ls[j - 1].sustain_time >= 0);
    }
}

pub proof fn lemma_prefix_update(ls: Seq<Linker>, k: int, x: Linker, j: int)
    requires
        0 <= k < ls.len(),
        0 <= j <= ls.len(),
    ensures
        prefix(ls.update(k, x), j) == prefix(ls, j) + (if j > k {
            x.sustain_time - ls[k].sustain_time
        } else {
            0
        }),
    decreases j,
{
    if j > 0 {
        lemma_prefix_update(ls, k, x, j - 1);
    }
}

pub proof fn lemma_prefix_insert(ls: Seq<Linker>, k: int, x: Linker, j: int)
    requires
        0 <= k <= ls.len(),
        0 <= j <= ls.len() + 1,
    ensures
        prefix(ls.insert(k, x), j) == if j <= k {
            prefix(ls, j)
        } else {
            prefix(ls, j - 1) + x.sustain_time
        },
    decreases j,
{
    if j > 0 {
        lemma_prefix_insert(ls, k, x, j - 1);
    }
}

pub proof fn lemma_prefix_remove(ls: Seq<Linker>, k: int, j: int)
    requires
        0 <= k < ls.len(),
        0 <= j <= ls.len() - 1,
    ensures
        prefix(ls.remove(k), j) == if j <= k {
            prefix(ls, j)
        } else {
            prefix(ls, j + 1) - ls[k].sustain_time
        },
    decreases j,
{
    if j > 0 {
        lemma_prefix_remove(ls, k, j - 1);
        lemma_prefix_step(ls, j);
        lemma_prefix_step(ls, j - 1);
    }
}

pub proof fn lemma_prefix_concat(a: Seq<Linker>, b: Seq<Linker>, j: int)
    requires
        0 <= j <= a.len() + b.len(),
    ensures
        prefix(a + b, j) == if j <= a.len() {
            prefix(a, j)
        } else {
            prefix(a, a.len() as int) + prefix(b, j - a.len())
        },
    decreases j,
{
    if j > 0 {
        lemma_prefix_concat(a, b, j - 1);
        if j > a.len() {
            lemma_prefix_step(b, j - a.len() - 1);
            assert(prefix(b, 0) == 0);
        }
    }
}

pub proof fn lemma_prefix_subrange(ls: Seq<Linker>, lo: int, hi: int, j: int)
    requires
        0 <= lo <= hi <= ls.len(),
        0 <= j <= hi - lo,
    ensures
        prefix(ls.subrange(lo, hi), j) == prefix(ls, lo + j) - prefix(ls, lo),
    decreases j,
{
    if j > 0 {
        lemma_prefix_subrange(ls, lo, hi, j - 1);
    }
}

/// Any stage of a timeline in range is an instant a timeline can reach.
pub(crate) proof fn lemma_stage_in_range(v: TimelineView, i: int)
    requires
        v.in_range(),
        0 <= i <= v.len(),
    ensures
        MIN_NANOS <= v.stage(i) <= MAX_NANOS,
{
    assert(in_time_range(v.stage(i)));
}

} // verus!
