//! Timelines and their verified operations: queries, keyframe insertion
//! and removal, lookup of the active segment, and merging.

use vstd::prelude::*;
use crate::easing::{AnimationLinker, ControlPoint};
use crate::model::{
    TimelineView,
    abs,
    all_non_negative,
    empty_timeline,
    in_time_range,
    lemma_nearest_unique,
    lemma_prefix_insert,
    lemma_prefix_monotone,
    lemma_prefix_remove,
    lemma_prefix_step,
    lemma_prefix_subrange,
    lemma_prefix_update,
    lemma_stage_in_range,
    near,
    overlaid,
    prefix,
    with_sustain,
};
use crate::scalar::Scalar;

verus! {

/// Tolerance of `insert_point`: one millisecond.
pub const INSERT_EPSILON: i128 = 1_000_000;

/// Tolerance of `remove_point`: 150 milliseconds.
pub const REMOVE_EPSILON: i128 = 150_000_000;

/// Latest instant a timeline can reach, in nanoseconds: the largest span
/// of whole seconds in an `i64`, plus 999 999 999 nanoseconds.
pub const MAX_NANOS: i128 = 9_223_372_036_854_775_807_999_999_999;

/// Earliest instant a timeline can reach, in nanoseconds.
pub const MIN_NANOS: i128 = -9_223_372_036_854_775_808_999_999_999;

/// What an animation drives.
#[derive(Clone, Debug, PartialEq, Eq, Hash, Structural)]
pub enum StyleToAnimate {
    /// A standard style attribute, by id.
    Style(usize),
    /// A shape animation, by id.
    Id(usize),
}

impl Default for StyleToAnimate {
    fn default() -> (r: StyleToAnimate)
        ensures
            r == StyleToAnimate::Style(0),
    {
        StyleToAnimate::Style(0)
    }
}

/// One segment of a timeline: it lasts `sustain_time` nanoseconds and ends
/// at `end_value`, moving there as `linker` says.
///
/// `sustain_time` is meant to be non-negative; this is the caller's to keep,
/// and nothing here rejects a negative one.
#[derive(Clone, Copy, Debug, PartialEq, Eq, Hash, Structural)]
pub struct Linker {
    pub end_value: Scalar,
    pub sustain_time: i128,
    pub linker: AnimationLinker,
}

/// A timeline: a start instant and value, then segments in order.
///
/// Stage `0` is `start_time`; stage `i + 1` is stage `i` plus the sustain
/// time of segment `i`. The value at stage `0` is `start_value`, the value
/// at stage `i + 1` is the end value of segment `i`.
#[derive(Clone, Debug, PartialEq, Eq, Hash)]
pub struct Animation {
    pub start_time: i128,
    pub start_value: Scalar,
    pub linkers: Vec<Linker>,
}

impl View for Animation {
    type V = TimelineView;

    open spec fn view(&self) -> TimelineView {
        TimelineView {
            start_time: self.start_time as int,
            start_value: self.start_value,
            linkers: self.linkers@,
        }
    }
}

/// The segment that is active at some instant, with what evaluating it
/// needs: progress through it is `elapsed / span`, with `0 <= elapsed < span`.
#[derive(Clone, Copy, Debug, PartialEq, Eq, Hash, Structural)]
pub struct ActiveSegment {
    /// Position of the segment in the timeline.
    pub index: usize,
    /// Value at the segment's start.
    pub start_value: Scalar,
    /// Value at the segment's end.
    pub end_value: Scalar,
    /// The segment's easing.
    pub linker: AnimationLinker,
    /// Nanoseconds from the segment's start to the instant.
    pub elapsed: i128,
    /// The segment's length in nanoseconds.
    pub span: i128,
}

/// Appends `ls[lo..hi]` to `out`.
fn extend_from(out: &mut Vec<Linker>, ls: &Vec<Linker>, lo: usize, hi: usize)
    requires
        lo <= hi <= ls@.len(),
    ensures
        final(out)@ == old(out)@ + ls@.subrange(lo as int, hi as int),
{
    let mut i: usize = lo;
    while i < hi
        invariant
            lo <= i <= hi <= ls@.len(),
            out@ == old(out)@ + ls@.subrange(lo as int, i as int),
        decreases hi - i,
    {
        out.push(ls[i]);
        i = i + 1;
        assert(out@ =~= old(out)@ + ls@.subrange(lo as int, i as int));
    }
}

/// `|a - b|`, for instants a timeline can reach.
fn abs_diff(a: i128, b: i128) -> (r: i128)
    requires
        in_time_range(a as int),
        in_time_range(b as int),
    ensures
        r as int == abs(a - b),
{
    if a >= b {
        a - b
    } else {
        b - a
    }
}

impl Animation {
    /// The timeline's stages all lie within the reachable time range.
    pub open spec fn wf(&self) -> bool {
        self@.in_range()
    }

    /// A timeline of one Bezier segment from `0.0` at time zero to `1.0`
    /// after `sustain_time`.
    pub fn new_standard(
        sustain_time: i128,
        control_point_one: ControlPoint,
        control_point_two: ControlPoint,
    ) -> (r: Animation)
        requires
            in_time_range(sustain_time as int),
        ensures
            r.wf(),
            r.start_time == 0,
            r.start_value.bits == 0,
            r.linkers@ == seq![
                Linker {
                    end_value: Scalar { bits: crate::scalar::ONE_BITS },
                    sustain_time,
                    linker: AnimationLinker::Bezier(control_point_one, control_point_two),
                },
            ],
    {
        let mut linkers: Vec<Linker> = Vec::new();
        linkers.push(
            Linker {
                end_value: Scalar::one(),
                sustain_time,
                linker: AnimationLinker::Bezier(control_point_one, control_point_two),
            },
        );
        let r = Animation { start_time: 0, start_value: Scalar::zero(), linkers };
        proof {
            assert(r.linkers@ =~= seq![r.linkers@[0]]);
            lemma_prefix_step(r.linkers@, 0);
            assert(prefix(r.linkers@, 0) == 0);
            assert forall|i: int| 0 <= i <= r@.len() implies #[trigger] in_time_range(
                r@.stage(i),
            ) by {
                if i == 1 {
                    lemma_prefix_step(r.linkers@, 0);
                }
            }
        }
        r
    }

    /// Total sustain time of all segments.
    pub fn len(&self) -> (r: i128)
        requires
            self.wf(),
        ensures
            r as int == self@.duration(),
    {
        let mut total: i128 = 0;
        let mut i: usize = 0;
        while i < self.linkers.len()
            invariant
                self.wf(),
                i <= self.linkers@.len(),
                total as int == prefix(self.linkers@, i as int),
            decreases self.linkers@.len() - i,
        {
            proof {
                lemma_stage_in_range(self@, 0);
                lemma_stage_in_range(self@, i as int + 1);
                lemma_prefix_step(self.linkers@, i as int);
                assert(prefix(self.linkers@, 0) == 0);
            }
            total = total + self.linkers[i].sustain_time;
            i = i + 1;
        }
        total
    }

    /// Absolute time at which the last segment ends.
    pub fn end_time(&self) -> (r: i128)
        requires
            self.wf(),
        ensures
            r as int == self@.end_time(),
    {
        proof {
            lemma_stage_in_range(self@, self@.len());
        }
        self.len() + self.start_time
    }

    /// The spans of the two timelines meet (touching ends count).
    pub fn is_cross(&self, other: &Animation) -> (r: bool)
        requires
            self.wf(),
            other.wf(),
        ensures
            r == self@.crosses(other@),
    {
        let self_end = self.end_time();
        let other_end = other.end_time();
        (self_end >= other.start_time && self.start_time <= other.start_time) || (other_end
            >= self.start_time && other.start_time <= self.start_time)
    }

    /// Absolute time of every stage boundary, in order: one more than
    /// there are segments, non-decreasing when no segment lasts a negative
    /// time.
    pub fn stages(&self) -> (r: Vec<i128>)
        requires
            self.wf(),
        ensures
            r@.len() == self.linkers@.len() + 1,
            forall|i: int| 0 <= i < r@.len() ==> r@[i] as int == #[trigger] self@.stage(i),
            all_non_negative(self.linkers@) ==> forall|i: int, j: int|
                0 <= i <= j < r@.len() ==> r@[i] <= r@[j],
    {
        let mut back: Vec<i128> = Vec::new();
        back.push(self.start_time);
        let mut last: i128 = self.start_time;
        let mut i: usize = 0;
        while i < self.linkers.len()
            invariant
                self.wf(),
                i <= self.linkers@.len(),
                back@.len() == i + 1,
                last as int == self@.stage(i as int),
                forall|k: int| 0 <= k < back@.len() ==> back@[k] as int == #[trigger] self@.stage(k),
            decreases self.linkers@.len() - i,
        {
            proof {
                lemma_stage_in_range(self@, i as int + 1);
            }
            last = last + self.linkers[i].sustain_time;
            back.push(last);
            i = i + 1;
        }
        proof {
            if all_non_negative(self.linkers@) {
                assert forall|i: int, j: int| 0 <= i <= j < back@.len() implies back@[i]
                    <= back@[j] by {
                    lemma_prefix_monotone(self.linkers@, i, j);
                    assert(back@[i] as int == self@.stage(i));
                    assert(back@[j] as int == self@.stage(j));
                }
            }
        }
        back
    }

    /// The segment active at `current_time`, or `None` before the start, at
    /// or after the end, and on a timeline without segments. Where several
    /// segments are active (only possible with negative sustain times) the
    /// last of them is taken.
    pub fn active_segment(&self, current_time: i128) -> (r: Option<ActiveSegment>)
        requires
            self.wf(),
        ensures
            r is None <==> forall|i: int| !#[trigger] self@.active(current_time as int, i),
            r matches Some(s) ==> {
                &&& self@.active(current_time as int, s.index as int)
                &&& s == self@.segment_at(current_time as int, s.index as int)
                &&& forall|j: int|
                    s.index < j ==> !#[trigger] self@.active(current_time as int, j)
            },
    {
        let stages = self.stages();
        let ghost t = current_time as int;
        let mut end: Option<ActiveSegment> = None;
        let mut i: usize = 0;
        while i < self.linkers.len()
            invariant
                self.wf(),
                t == current_time as int,
                i <= self.linkers@.len(),
                stages@.len() == self.linkers@.len() + 1,
                forall|k: int| 0 <= k < stages@.len() ==> stages@[k] as int == #[trigger] self@.stage(k),
                end is None ==> forall|j: int| j < i ==> !#[trigger] self@.active(t, j),
                end matches Some(s) ==> {
                    &&& s.index < i
                    &&& self@.active(t, s.index as int)
                    &&& s == self@.segment_at(t, s.index as int)
                    &&& forall|j: int| s.index < j < i ==> !#[trigger] self@.active(t, j)
                },
            decreases self.linkers@.len() - i,
        {
            assert(stages@[i as int] as int == self@.stage(i as int));
            assert(stages@[i + 1] as int == self@.stage(i + 1));
            let ghost was_active = self@.active(t, i as int);
            if current_time < stages[i + 1] && current_time >= stages[i] {
                let start_value = if i == 0 {
                    self.start_value
                } else {
                    self.linkers[i - 1].end_value
                };
                end = Some(
                    ActiveSegment {
                        index: i,
                        start_value,
                        end_value: self.linkers[i].end_value,
                        linker: self.linkers[i].linker,
                        elapsed: current_time - stages[i],
                        span: stages[i + 1] - stages[i],
                    },
                );
                assert(was_active);
            } else {
                assert(!was_active);
            }
            i = i + 1;
        }
        end
    }

    /// Places a keyframe of `end_value` at `time`, reached through `linker`;
    /// a stage boundary within one millisecond of `time` is moved there
    /// instead.
    pub fn insert_point(&mut self, time: i128, end_value: Scalar, linker: AnimationLinker)
        requires
            old(self).wf(),
            in_time_range(time as int),
        ensures
            final(self).wf(),
            final(self)@ == old(self)@.inserted(
                time as int,
                end_value,
                linker,
                INSERT_EPSILON as int,
            ),
    {
        self.insert_point_with_epsilon(time, end_value, linker, INSERT_EPSILON);
    }

    /// Places a keyframe of `end_value` at `time`, reached through `linker`;
    /// a stage boundary within `epsilon` of `time` is moved there instead.
    ///
    /// Near the start, the start moves and the first segment keeps its end.
    /// Before the start, a segment is put in front. After the end, one is
    /// appended. Inside, the segment is either given a new end near its
    /// boundary, with the next segment keeping its own end, or split in two.
    pub fn insert_point_with_epsilon(
        &mut self,
        time: i128,
        end_value: Scalar,
        linker: AnimationLinker,
        epsilon: i128,
    )
        requires
            old(self).wf(),
            in_time_range(time as int),
        ensures
            final(self).wf(),
            final(self)@ == old(self)@.inserted(time as int, end_value, linker, epsilon as int),
    {
        let ghost v = self@;
        let ghost ls = self.linkers@;
        let ghost n = ls.len() as int;
        proof {
            lemma_stage_in_range(v, 0);
            lemma_stage_in_range(v, n);
        }
        if abs_diff(time, self.start_time) <= epsilon {
            if self.linkers.len() > 0 {
                proof {
                    lemma_stage_in_range(v, 1);
                    lemma_prefix_step(ls, 0);
                }
                let l0 = self.linkers[0];
                let s = self.start_time + l0.sustain_time - time;
                self.linkers.set(
                    0,
                    Linker { end_value: l0.end_value, sustain_time: s, linker: l0.linker },
                );
                proof {
                    assert forall|j: int| 0 <= j <= n implies prefix(self.linkers@, j) == prefix(ls, j) + (if j > 0 {
                        v.stage(1) - time - ls[0].sustain_time
                    } else {
                        0
                    }) by {
                        lemma_prefix_update(ls, 0, self.linkers@[0], j);
                    }
                    assert(self.linkers@ =~= ls.update(0, with_sustain(ls[0], v.stage(1) - time)));
                }
            }
            self.start_value = end_value;
            self.start_time = time;
            proof {
                assert forall|j: int| 0 <= j <= self@.len() implies #[trigger] in_time_range(
                    self@.stage(j),
                ) by {
                    if j > 0 {
                        lemma_stage_in_range(v, j);
                    }
                }
            }
            return;
        }
        if time < self.start_time {
            let new_linker = Linker {
                end_value: self.start_value,
                sustain_time: self.start_time - time,
                linker,
            };
            self.start_time = time;
            self.start_value = end_value;
            self.linkers.insert(0, new_linker);
            proof {
                assert forall|j: int| 0 <= j <= self@.len() implies #[trigger] in_time_range(
                    self@.stage(j),
                ) by {
                    lemma_prefix_insert(ls, 0, new_linker, j);
                    if j > 0 {
                        lemma_stage_in_range(v, j - 1);
                    }
                }
            }
            return;
        }
        let len = self.end_time();
        if time - len > epsilon {
            let new_linker = Linker { end_value, sustain_time: time - len, linker };
            self.linkers.push(new_linker);
            proof {
                assert(self.linkers@ =~= ls.insert(n, new_linker));
                assert forall|j: int| 0 <= j <= self@.len() implies #[trigger] in_time_range(
                    self@.stage(j),
                ) by {
                    lemma_prefix_insert(ls, n, new_linker, j);
                    if j <= n {
                        lemma_stage_in_range(v, j);
                    }
                }
            }
            return;
        }
        let mut last_time: i128 = self.start_time;
        let mut i: usize = 0;
        while i < self.linkers.len()
            invariant
                self@ == v,
                old(self)@ == v,
                self.linkers@ == ls,
                n == ls.len(),
                v.in_range(),
                in_time_range(time as int),
                !near(time as int, v.start_time, epsilon as int),
                time >= v.start_time,
                time - v.end_time() <= epsilon,
                i <= n,
                last_time as int == v.stage(i as int),
                time >= last_time,
                v.landing_from(time as int, epsilon as int, 0) == v.landing_from(
                    time as int,
                    epsilon as int,
                    i as int,
                ),
            decreases n - i,
        {
            proof {
                lemma_stage_in_range(v, i as int);
                lemma_stage_in_range(v, i as int + 1);
                lemma_prefix_step(ls, i as int);
            }
            let li = self.linkers[i];
            let next_stage = last_time + li.sustain_time;
            if abs_diff(time, next_stage) <= epsilon {
                let ghost ls1 = if i + 1 < n {
                    ls.update(i + 1, with_sustain(ls[i + 1], v.stage(i + 2) - time))
                } else {
                    ls
                };
                if i + 1 < self.linkers.len() {
                    proof {
                        lemma_stage_in_range(v, i as int + 2);
                        lemma_prefix_step(ls, i as int + 1);
                    }
                    let lj = self.linkers[i + 1];
                    self.linkers.set(
                        i + 1,
                        Linker {
                            end_value: lj.end_value,
                            sustain_time: last_time + lj.sustain_time + li.sustain_time - time,
                            linker: lj.linker,
                        },
                    );
                }
                assert(self.linkers@ =~= ls1);
                let new_linker = Linker {
                    end_value,
                    sustain_time: abs_diff(time, last_time),
                    linker,
                };
                self.linkers.set(i, new_linker);
                proof {
                    let ls2 = self.linkers@;
                    assert(v.lands_in(time as int, epsilon as int, i as int));
                    assert(v.landing_from(time as int, epsilon as int, i as int) == i);
                    assert(ls2 =~= ls1.update(
                        i as int,
                        Linker {
                            end_value,
                            sustain_time: abs(time - v.stage(i as int)) as i128,
                            linker,
                        },
                    ));
                    assert forall|j: int| 0 <= j <= n implies #[trigger] in_time_range(
                        v.start_time + prefix(ls2, j),
                    ) by {
                        lemma_prefix_update(ls1, i as int, new_linker, j);
                        if i + 1 < n {
                            lemma_prefix_update(ls, i as int + 1, ls1[i + 1], j);
                        }
                        if j <= i {
                            lemma_stage_in_range(v, j);
                        } else if j > i + 1 {
                            lemma_stage_in_range(v, j);
                        }
                    }
                    assert forall|j: int| 0 <= j <= self@.len() implies #[trigger] in_time_range(
                        self@.stage(j),
                    ) by {
                        assert(in_time_range(v.start_time + prefix(ls2, j)));
                    }
                }
                return;
            }
            if time - last_time < li.sustain_time {
                let new_linker = Linker { end_value, sustain_time: time - last_time, linker };
                let rest = Linker {
                    end_value: li.end_value,
                    sustain_time: li.sustain_time - time + last_time,
                    linker: li.linker,
                };
                self.linkers.set(i, rest);
                let ghost ls1 = self.linkers@;
                self.linkers.insert(i, new_linker);
                proof {
                    assert(ls1 =~= ls.update(i as int, with_sustain(li, v.stage(i + 1) - time)));
                    assert(v.lands_in(time as int, epsilon as int, i as int));
                    assert(v.landing_from(time as int, epsilon as int, i as int) == i);
                    assert forall|j: int| 0 <= j <= self@.len() implies #[trigger] in_time_range(
                        self@.stage(j),
                    ) by {
                        lemma_prefix_insert(ls1, i as int, new_linker, j);
                        if j <= i {
                            lemma_prefix_update(ls, i as int, rest, j);
                            lemma_stage_in_range(v, j);
                        } else if j > i + 1 {
                            lemma_prefix_update(ls, i as int, rest, j - 1);
                            lemma_stage_in_range(v, j - 1);
                        } else {
                            lemma_prefix_update(ls, i as int, rest, j - 1);
                        }
                    }
                }
                return;
            }
            last_time = next_stage;
            i = i + 1;
        }
        proof {
            assert(v.landing_from(time as int, epsilon as int, i as int) == n);
        }
    }

    /// Removes the stage boundary nearest `time`, if one lies within 150
    /// milliseconds of it.
    pub fn remove_point(&mut self, time: i128)
        requires
            old(self).wf(),
            in_time_range(time as int),
        ensures
            final(self).wf(),
            final(self)@ == old(self)@.removed(time as int, REMOVE_EPSILON as int),
    {
        self.remove_point_with_epsilon(time, REMOVE_EPSILON)
    }

    /// Removes the stage boundary nearest `time`, if one lies within
    /// `epsilon` of it; of equally near ones the first is taken.
    ///
    /// Removing the start drops the first segment and starts where it ended
    /// (on a timeline without segments it gives the default timeline).
    /// Removing an inner boundary joins its two segments into one with the
    /// later one's end value and easing. Removing the end drops the last
    /// segment.
    pub fn remove_point_with_epsilon(&mut self, time: i128, epsilon: i128)
        requires
            old(self).wf(),
            in_time_range(time as int),
        ensures
            final(self).wf(),
            final(self)@ == old(self)@.removed(time as int, epsilon as int),
    {
        let ghost v = self@;
        let ghost ls = self.linkers@;
        let ghost n = ls.len() as int;
        let ghost t = time as int;
        let ghost eps = epsilon as int;
        let stages = self.stages();
        let mut nearest: Option<(usize, i128)> = None;
        let mut i: usize = 0;
        while i < stages.len()
            invariant
                self.wf(),
                self@ == v,
                t == time as int,
                eps == epsilon as int,
                in_time_range(time as int),
                i <= stages@.len(),
                stages@.len() == v.len() + 1,
                forall|k: int| 0 <= k < stages@.len() ==> stages@[k] as int == #[trigger] v.stage(k),
                nearest is None ==> forall|j: int| 0 <= j < i ==> #[trigger] v.gap(t, j) > eps,
                nearest matches Some((id, d)) ==> {
                    &&& id < i
                    &&& d as int == v.gap(t, id as int)
                    &&& d <= epsilon
                    &&& forall|j: int| 0 <= j < id ==> #[trigger] v.gap(t, j) > d
                    &&& forall|j: int| id < j < i ==> #[trigger] v.gap(t, j) >= d
                },
            decreases stages@.len() - i,
        {
            proof {
                lemma_stage_in_range(v, i as int);
            }
            assert(stages@[i as int] as int == v.stage(i as int));
            let delta = abs_diff(time, stages[i]);
            if delta <= epsilon {
                match nearest {
                    Some((_, d)) => {
                        if d > delta {
                            nearest = Some((i, delta));
                        }
                    },
                    None => {
                        nearest = Some((i, delta));
                    },
                }
            }
            i = i + 1;
        }
        match nearest {
            Some((id, _)) => {
                proof {
                    assert(v.is_nearest(t, eps, id as int));
                    let c = choose|c: int| v.is_nearest(t, eps, c);
                    lemma_nearest_unique(v, t, eps, c, id as int);
                }
                if id == 0 {
                    if self.linkers.len() == 0 {
                        *self = Animation::default();
                        proof {
                            assert(self@.linkers =~= empty_timeline().linkers);
                        }
                    } else {
                        proof {
                            lemma_stage_in_range(v, 0);
                            lemma_stage_in_range(v, 1);
                            lemma_prefix_step(ls, 0);
                        }
                        self.start_value = self.linkers[0].end_value;
                        self.start_time = self.linkers[0].sustain_time + self.start_time;
                        self.linkers.remove(0);
                        proof {
                            assert forall|j: int| 0 <= j <= self@.len() implies #[trigger] in_time_range(
                                self@.stage(j),
                            ) by {
                                lemma_prefix_remove(ls, 0, j);
                                lemma_stage_in_range(v, j + 1);
                            }
                        }
                    }
                } else if id < self.linkers.len() {
                    proof {
                        lemma_stage_in_range(v, id - 1);
                        lemma_stage_in_range(v, id + 1);
                        lemma_prefix_step(ls, id - 1);
                        lemma_prefix_step(ls, id as int);
                    }
                    let prev = self.linkers[id - 1];
                    let cur = self.linkers[id];
                    let joined = Linker {
                        end_value: cur.end_value,
                        sustain_time: prev.sustain_time + cur.sustain_time,
                        linker: cur.linker,
                    };
                    self.linkers.set(id, joined);
                    let ghost ls1 = self.linkers@;
                    self.linkers.remove(id - 1);
                    proof {
                        assert(ls1 =~= ls.update(
                            id as int,
                            with_sustain(cur, prev.sustain_time + cur.sustain_time),
                        ));
                        assert forall|j: int| 0 <= j <= self@.len() implies #[trigger] in_time_range(
                            self@.stage(j),
                        ) by {
                            lemma_prefix_remove(ls1, id - 1, j);
                            if j <= id - 1 {
                                lemma_prefix_update(ls, id as int, joined, j);
                                lemma_stage_in_range(v, j);
                            } else {
                                lemma_prefix_update(ls, id as int, joined, j + 1);
                                lemma_stage_in_range(v, j + 1);
                            }
                        }
                    }
                } else {
                    self.linkers.pop();
                    proof {
                        assert(self.linkers@ =~= ls.drop_last());
                        assert forall|j: int| 0 <= j <= self@.len() implies #[trigger] in_time_range(
                            self@.stage(j),
                        ) by {
                            lemma_prefix_subrange(ls, 0, n - 1, j);
                            lemma_stage_in_range(v, j);
                        }
                    }
                }
            },
            None => {
                proof {
                    assert forall|c: int| !v.is_nearest(t, eps, c) by {
                        if 0 <= c <= n {
                            assert(v.gap(t, c) > eps);
                        }
                    }
                }
            },
        }
    }

    /// A copy of this timeline.
    pub fn duplicate(&self) -> (r: Animation)
        ensures
            r@ == self@,
    {
        let mut linkers: Vec<Linker> = Vec::new();
        extend_from(&mut linkers, &self.linkers, 0, self.linkers.len());
        assert(linkers@ =~= self.linkers@);
        Animation { start_time: self.start_time, start_value: self.start_value, linkers }
    }

    /// Every stage boundary lies within the reachable time range; unlike
    /// the other operations this one takes any timeline.
    pub fn is_in_range(&self) -> (r: bool)
        ensures
            r == self.wf(),
    {
        let ghost v = self@;
        if self.start_time < MIN_NANOS || self.start_time > MAX_NANOS {
            assert(!in_time_range(v.stage(0)));
            return false;
        }
        let mut last: i128 = self.start_time;
        let mut i: usize = 0;
        while i < self.linkers.len()
            invariant
                v == self@,
                i <= v.len(),
                last as int == v.stage(i as int),
                forall|j: int| 0 <= j <= i ==> #[trigger] in_time_range(v.stage(j)),
            decreases v.len() - i,
        {
            proof {
                lemma_prefix_step(self.linkers@, i as int);
            }
            assert(in_time_range(v.stage(i as int)));
            let s = self.linkers[i].sustain_time;
            if s > MAX_NANOS - last || s < MIN_NANOS - last {
                assert(!in_time_range(v.stage(i + 1)));
                return false;
            }
            last = last + s;
            i = i + 1;
        }
        true
    }

    /// The merge of `self` and `other`, bridged by `linker`, as a new
    /// timeline; neither operand changes.
    pub fn merged(&self, other: &Animation, linker: AnimationLinker) -> (r: Animation)
        requires
            self.wf(),
            other.wf(),
        ensures
            r@ == self@.combined(other@, linker),
    {
        let crosses = self.is_cross(other);
        let other_first = self.start_time > other.start_time;
        let earlier = if other_first {
            other
        } else {
            self
        };
        let later = if other_first {
            self
        } else {
            other
        };
        if crosses {
            earlier.overlay(later, linker)
        } else {
            let mut r = earlier.duplicate();
            proof {
                lemma_stage_in_range(later@, 0);
            }
            r.insert_point(later.start_time, later.start_value, linker);
            extend_from(&mut r.linkers, &later.linkers, 0, later.linkers.len());
            assert(later.linkers@.subrange(0, later.linkers@.len() as int) =~= later.linkers@);
            r
        }
    }

    /// `overlaid(self@, later@, linker)` as a new timeline.
    fn overlay(&self, later: &Animation, linker: AnimationLinker) -> (r: Animation)
        requires
            self.wf(),
            later.wf(),
        ensures
            r@ == overlaid(self@, later@, linker),
    {
        let ghost v = self@;
        let n = self.linkers.len();
        let m = later.linkers.len();
        let mut last: i128 = self.start_time;
        let mut k: usize = 0;
        proof {
            lemma_stage_in_range(v, 0);
        }
        while k < n
            invariant
                v == self@,
                v.in_range(),
                n == v.len(),
                k <= n,
                last as int == v.stage(k as int),
                v.passing_from(later.start_time as int, 0) == v.passing_from(
                    later.start_time as int,
                    k as int,
                ),
            ensures
                k <= n,
                last as int == v.stage(k as int),
                k == v.passing_from(later.start_time as int, 0),
            decreases n - k,
        {
            proof {
                lemma_prefix_step(self.linkers@, k as int);
                lemma_stage_in_range(v, k as int + 1);
            }
            let next = last + self.linkers[k].sustain_time;
            if next > later.start_time {
                break;
            }
            last = next;
            k = k + 1;
        }
        proof {
            lemma_stage_in_range(v, k as int);
            lemma_stage_in_range(later@, 0);
        }
        let bridge = Linker {
            end_value: later.start_value,
            sustain_time: later.start_time - last,
            linker,
        };
        let mut linkers: Vec<Linker> = Vec::new();
        extend_from(&mut linkers, &self.linkers, 0, k);
        linkers.push(bridge);
        extend_from(&mut linkers, &later.linkers, 0, m);
        let ghost rest = if k + 1 + m < n {
            self.linkers@.subrange(k + 1 + m, n as int)
        } else {
            Seq::empty()
        };
        if m < n && k < n - m - 1 {
            extend_from(&mut linkers, &self.linkers, k + 1 + m, n);
        }
        proof {
            assert(later.linkers@.subrange(0, m as int) =~= later.linkers@);
            assert(linkers@ =~= self.linkers@.subrange(0, k as int) + seq![bridge] + later.linkers@
                + rest);
        }
        Animation { start_time: self.start_time, start_value: self.start_value, linkers }
    }

    /// Merges `other` into `self`, bridged by `linker`: `self` becomes the
    /// merge and `other` is left without segments (its start is kept).
    pub fn combine(&mut self, other: &mut Animation, linker: AnimationLinker)
        requires
            old(self).wf(),
            old(other).wf(),
            old(self)@.combined(old(other)@, linker).in_range(),
        ensures
            final(self).wf(),
            final(self)@ == old(self)@.combined(old(other)@, linker),
            final(other).start_time == old(other).start_time,
            final(other).start_value == old(other).start_value,
            final(other).linkers@.len() == 0,
            final(other).wf(),
    {
        let merged = self.merged(other, linker);
        *self = merged;
        other.linkers.clear();
        proof {
            lemma_stage_in_range(old(other)@, 0);
            assert(other@.stage(0) == other.start_time);
        }
    }

    /// Number of segments.
    pub fn linkers_len(&self) -> (r: usize)
        ensures
            r == self.linkers@.len(),
    {
        self.linkers.len()
    }

    /// The timeline has no segment.
    pub fn is_empty(&self) -> (r: bool)
        ensures
            r == (self.linkers@.len() == 0),
    {
        self.linkers_len() == 0
    }

    /// Value at the last stage.
    pub fn end_value(&self) -> (r: Scalar)
        ensures
            r == self@.end_value(),
    {
        if self.linkers.len() == 0 {
            self.start_value
        } else {
            self.linkers[self.linkers.len() - 1].end_value
        }
    }
}

impl Default for Animation {
    /// The empty timeline: value `0.0` at time zero, no segment.
    fn default() -> (r: Animation)
        ensures
            r@ == empty_timeline(),
            r.wf(),
    {
        let r = Animation { start_time: 0, start_value: Scalar::zero(), linkers: Vec::new() };
        proof {
            assert(r@.linkers =~= Seq::<Linker>::empty());
        }
        r
    }
}

} // verus!
