use animation::{ActiveSegment, Animation, AnimationLinker, ControlPoint, Linker, Scalar, StyleToAnimate};

const SEC: i128 = 1_000_000_000;
const MS: i128 = 1_000_000;

fn val(x: f32) -> Scalar {
    Scalar::from_bits(x.to_bits())
}

fn seg(end: f32, sustain: i128, linker: AnimationLinker) -> Linker {
    Linker { end_value: val(end), sustain_time: sustain, linker }
}

fn timeline(start_time: i128, start_value: f32, linkers: Vec<Linker>) -> Animation {
    Animation { start_time, start_value: val(start_value), linkers }
}

fn bezier() -> AnimationLinker {
    AnimationLinker::Bezier(
        ControlPoint::new(val(0.25), val(0.1)),
        ControlPoint::new(val(0.25), val(1.0)),
    )
}

#[test]
fn default_timeline_is_empty() {
    let a = Animation::default();
    assert_eq!(a.len(), 0);
    assert_eq!(a.end_time(), 0);
    assert!(a.is_empty());
    assert_eq!(a.linkers_len(), 0);
    assert_eq!(a.active_segment(0), None);
    assert_eq!(a.active_segment(-5 * SEC), None);
    assert_eq!(a.active_segment(7 * SEC), None);
    assert_eq!(a.end_value(), a.start_value);
    assert_eq!(a.start_value, val(0.0));
    assert_eq!(a.stages(), vec![0]);
}

#[test]
fn standard_timeline_midpoint_is_inside_first_segment() {
    let c1 = ControlPoint::new(val(0.25), val(0.1));
    let c2 = ControlPoint::new(val(0.25), val(1.0));
    let a = Animation::new_standard(2 * SEC, c1, c2);
    assert_eq!(a.start_time, 0);
    assert_eq!(a.start_value, val(0.0));
    assert_eq!(a.end_value(), val(1.0));
    assert_eq!(a.len(), 2 * SEC);
    let s = a.active_segment(SEC).unwrap();
    assert_eq!(
        s,
        ActiveSegment {
            index: 0,
            start_value: val(0.0),
            end_value: val(1.0),
            linker: AnimationLinker::Bezier(c1, c2),
            elapsed: SEC,
            span: 2 * SEC,
        }
    );
}

#[test]
fn stages_have_one_more_entry_and_do_not_decrease() {
    let a = timeline(
        5 * SEC,
        0.0,
        vec![
            seg(1.0, SEC, AnimationLinker::Linear),
            seg(2.0, 0, AnimationLinker::Mutation),
            seg(3.0, 3 * SEC, bezier()),
        ],
    );
    let st = a.stages();
    assert_eq!(st.len(), a.linkers_len() + 1);
    assert_eq!(st, vec![5 * SEC, 6 * SEC, 6 * SEC, 9 * SEC]);
    for w in st.windows(2) {
        assert!(w[0] <= w[1]);
    }
    assert_eq!(a.len(), 4 * SEC);
    assert_eq!(a.end_time(), 9 * SEC);
}

#[test]
fn start_instant_is_first_segment_at_zero_progress() {
    let a = timeline(
        2 * SEC,
        4.0,
        vec![seg(1.0, SEC, AnimationLinker::Linear), seg(2.0, SEC, AnimationLinker::Linear)],
    );
    let s = a.active_segment(2 * SEC).unwrap();
    assert_eq!(s.index, 0);
    assert_eq!(s.elapsed, 0);
    assert_eq!(s.start_value, val(4.0));
}

#[test]
fn nothing_is_active_outside_the_span() {
    let a = timeline(
        2 * SEC,
        4.0,
        vec![seg(1.0, SEC, AnimationLinker::Linear), seg(2.0, SEC, AnimationLinker::Power(val(2.0)))],
    );
    assert_eq!(a.active_segment(2 * SEC - 1), None);
    assert_eq!(a.active_segment(4 * SEC), None);
    assert_eq!(a.active_segment(10 * SEC), None);
    let s = a.active_segment(4 * SEC - 1).unwrap();
    assert_eq!(s.index, 1);
    assert_eq!(s.start_value, val(1.0));
    assert_eq!(s.end_value, val(2.0));
    assert_eq!(s.linker, AnimationLinker::Power(val(2.0)));
    assert_eq!(s.elapsed, SEC - 1);
    assert_eq!(s.span, SEC);
}

#[test]
fn zero_length_segment_is_never_active() {
    let a = timeline(
        0,
        0.0,
        vec![seg(5.0, 0, AnimationLinker::Linear), seg(1.0, SEC, AnimationLinker::Linear)],
    );
    let s = a.active_segment(0).unwrap();
    assert_eq!(s.index, 1);
    assert_eq!(s.start_value, val(5.0));
}

#[test]
fn insert_near_start_moves_start_and_keeps_first_boundary() {
    let mut a = timeline(SEC, 0.0, vec![seg(1.0, SEC, AnimationLinker::Linear)]);
    a.insert_point(SEC + MS / 2, val(7.0), bezier());
    assert_eq!(a.start_time, SEC + MS / 2);
    assert_eq!(a.start_value, val(7.0));
    assert_eq!(a.linkers, vec![seg(1.0, SEC - MS / 2, AnimationLinker::Linear)]);
    assert_eq!(a.end_time(), 2 * SEC);
}

#[test]
fn insert_before_start_prepends() {
    let mut a = timeline(SEC, 3.0, vec![seg(1.0, SEC, AnimationLinker::Linear)]);
    a.insert_point(0, val(9.0), AnimationLinker::Mutation);
    assert_eq!(a.start_time, 0);
    assert_eq!(a.start_value, val(9.0));
    assert_eq!(
        a.linkers,
        vec![seg(3.0, SEC, AnimationLinker::Mutation), seg(1.0, SEC, AnimationLinker::Linear)]
    );
}

#[test]
fn insert_after_end_appends() {
    let mut a = timeline(0, 0.0, vec![seg(1.0, SEC, AnimationLinker::Linear)]);
    a.insert_point(3 * SEC, val(2.0), AnimationLinker::Linear);
    assert_eq!(
        a.linkers,
        vec![seg(1.0, SEC, AnimationLinker::Linear), seg(2.0, 2 * SEC, AnimationLinker::Linear)]
    );
    assert_eq!(a.stages(), vec![0, SEC, 3 * SEC]);
}

#[test]
fn insert_on_empty_timeline_appends_one_segment() {
    let mut a = Animation::default();
    a.insert_point(5 * SEC, val(1.0), AnimationLinker::Linear);
    assert_eq!(a.start_time, 0);
    assert_eq!(a.linkers, vec![seg(1.0, 5 * SEC, AnimationLinker::Linear)]);
}

#[test]
fn insert_near_inner_boundary_replaces_it() {
    let mut a = timeline(
        0,
        0.0,
        vec![seg(1.0, SEC, AnimationLinker::Linear), seg(2.0, SEC, AnimationLinker::Linear)],
    );
    a.insert_point_with_epsilon(SEC + 5 * MS, val(8.0), AnimationLinker::Mutation, 10 * MS);
    assert_eq!(
        a.linkers,
        vec![
            seg(8.0, SEC + 5 * MS, AnimationLinker::Mutation),
            seg(2.0, SEC - 5 * MS, AnimationLinker::Linear),
        ]
    );
    assert_eq!(a.end_time(), 2 * SEC);
}

#[test]
fn insert_near_end_boundary_moves_the_end() {
    let mut a = timeline(0, 0.0, vec![seg(1.0, SEC, AnimationLinker::Linear)]);
    a.insert_point(SEC + MS, val(4.0), bezier());
    assert_eq!(a.linkers, vec![seg(4.0, SEC + MS, bezier())]);
}

#[test]
fn insert_inside_segment_splits_it() {
    let mut a = timeline(
        0,
        0.0,
        vec![seg(1.0, SEC, AnimationLinker::Linear), seg(2.0, 2 * SEC, bezier())],
    );
    a.insert_point(2 * SEC, val(5.0), AnimationLinker::Mutation);
    assert_eq!(
        a.linkers,
        vec![
            seg(1.0, SEC, AnimationLinker::Linear),
            seg(5.0, SEC, AnimationLinker::Mutation),
            seg(2.0, SEC, bezier()),
        ]
    );
    assert_eq!(a.stages(), vec![0, SEC, 2 * SEC, 3 * SEC]);
}

#[test]
fn insert_then_remove_restores_the_timeline() {
    let original = timeline(
        SEC,
        0.5,
        vec![seg(1.0, SEC, AnimationLinker::Linear), seg(2.0, 2 * SEC, bezier())],
    );
    for t in [0, SEC / 2, 3 * SEC / 2, 3 * SEC, 7 * SEC / 2, 10 * SEC] {
        let mut a = original.clone();
        a.insert_point(t, val(42.0), AnimationLinker::Linear);
        assert_ne!(a, original);
        a.remove_point(t);
        assert_eq!(a, original, "round trip at {}", t);
    }
}

#[test]
fn remove_inner_boundary_joins_segments() {
    let mut a = timeline(
        0,
        0.0,
        vec![seg(1.0, SEC, AnimationLinker::Linear), seg(2.0, 2 * SEC, bezier())],
    );
    a.remove_point(SEC + 100 * MS);
    assert_eq!(a.start_time, 0);
    assert_eq!(a.start_value, val(0.0));
    assert_eq!(a.linkers, vec![seg(2.0, 3 * SEC, bezier())]);
}

#[test]
fn remove_start_drops_first_segment() {
    let mut a = timeline(
        SEC,
        0.0,
        vec![seg(1.0, SEC, AnimationLinker::Linear), seg(2.0, SEC, bezier())],
    );
    a.remove_point(SEC - 10 * MS);
    assert_eq!(a.start_time, 2 * SEC);
    assert_eq!(a.start_value, val(1.0));
    assert_eq!(a.linkers, vec![seg(2.0, SEC, bezier())]);
}

#[test]
fn remove_start_of_empty_timeline_resets_it() {
    let mut a = timeline(5 * SEC, 3.0, vec![]);
    a.remove_point(5 * SEC);
    assert_eq!(a, Animation::default());
}

#[test]
fn remove_end_drops_last_segment() {
    let mut a = timeline(
        0,
        0.0,
        vec![seg(1.0, SEC, AnimationLinker::Linear), seg(2.0, SEC, bezier())],
    );
    a.remove_point(2 * SEC + 149 * MS);
    assert_eq!(a.linkers, vec![seg(1.0, SEC, AnimationLinker::Linear)]);
}

#[test]
fn remove_far_from_every_boundary_changes_nothing() {
    let original = timeline(0, 0.0, vec![seg(1.0, SEC, AnimationLinker::Linear)]);
    let mut a = original.clone();
    a.remove_point(SEC / 2);
    assert_eq!(a, original);
    a.remove_point_with_epsilon(SEC + 2 * MS, MS);
    assert_eq!(a, original);
}

#[test]
fn remove_takes_the_nearest_then_the_first_of_equals() {
    let mut a = timeline(
        0,
        0.0,
        vec![
            seg(1.0, 100 * MS, AnimationLinker::Linear),
            seg(2.0, 100 * MS, AnimationLinker::Linear),
        ],
    );
    // Stages 0, 100 ms and 200 ms; 60 ms is nearer the middle one.
    let mut b = a.clone();
    b.remove_point(60 * MS);
    assert_eq!(b.start_time, 0);
    assert_eq!(b.linkers, vec![seg(2.0, 200 * MS, AnimationLinker::Linear)]);
    // 50 ms is as near the start as the middle: the start goes.
    a.remove_point(50 * MS);
    assert_eq!(a.start_time, 100 * MS);
    assert_eq!(a.start_value, val(1.0));
    assert_eq!(a.linkers, vec![seg(2.0, 100 * MS, AnimationLinker::Linear)]);
}

#[test]
fn combine_disjoint_timelines_bridges_the_gap() {
    let mut a = timeline(0, 0.0, vec![seg(1.0, SEC, AnimationLinker::Linear)]);
    let mut b = timeline(3 * SEC, 1.0, vec![seg(0.0, SEC, AnimationLinker::Linear)]);
    assert!(!a.is_cross(&b));
    a.combine(&mut b, AnimationLinker::Linear);
    assert_eq!(a.start_time, 0);
    assert_eq!(a.end_time(), 4 * SEC);
    assert_eq!(a.stages(), vec![0, SEC, 3 * SEC, 4 * SEC]);
    assert_eq!(a.linkers_len(), 3);
    assert_eq!(a.linkers[1], seg(1.0, 2 * SEC, AnimationLinker::Linear));
    assert_eq!(a.linkers[1].end_value, b.start_value);
    assert!(b.is_empty());
}

#[test]
fn combine_disjoint_with_self_later_keeps_result_in_self() {
    let mut a = timeline(3 * SEC, 1.0, vec![seg(0.0, SEC, bezier())]);
    let mut b = timeline(0, 0.0, vec![seg(1.0, SEC, AnimationLinker::Linear)]);
    a.combine(&mut b, AnimationLinker::Mutation);
    assert_eq!(a.start_time, 0);
    assert_eq!(a.start_value, val(0.0));
    assert_eq!(
        a.linkers,
        vec![
            seg(1.0, SEC, AnimationLinker::Linear),
            seg(1.0, 2 * SEC, AnimationLinker::Mutation),
            seg(0.0, SEC, bezier()),
        ]
    );
    assert!(b.is_empty());
}

#[test]
fn combine_overlapping_bridges_into_the_later_start() {
    let mut a = timeline(
        0,
        0.0,
        vec![seg(1.0, 2 * SEC, AnimationLinker::Linear), seg(2.0, 2 * SEC, AnimationLinker::Linear)],
    );
    let mut b = timeline(3 * SEC, 5.0, vec![seg(6.0, 4 * SEC, bezier())]);
    assert!(a.is_cross(&b));
    a.combine(&mut b, AnimationLinker::Mutation);
    assert_eq!(a.start_time, 0);
    assert_eq!(
        a.linkers,
        vec![
            seg(1.0, 2 * SEC, AnimationLinker::Linear),
            seg(5.0, SEC, AnimationLinker::Mutation),
            seg(6.0, 4 * SEC, bezier()),
        ]
    );
    assert_eq!(a.stages(), vec![0, 2 * SEC, 3 * SEC, 7 * SEC]);
    assert!(b.is_empty());
    assert_eq!(b.start_time, 3 * SEC);
}

#[test]
fn combine_overlapping_with_other_earlier() {
    let mut a = timeline(SEC, 5.0, vec![seg(6.0, SEC, bezier())]);
    let mut b = timeline(0, 0.0, vec![seg(1.0, 4 * SEC, AnimationLinker::Linear)]);
    a.combine(&mut b, AnimationLinker::Linear);
    assert_eq!(a.start_time, 0);
    assert_eq!(a.start_value, val(0.0));
    assert_eq!(
        a.linkers,
        vec![seg(5.0, SEC, AnimationLinker::Linear), seg(6.0, SEC, bezier())]
    );
    assert!(b.is_empty());
}

#[test]
fn combine_overlapping_keeps_what_the_later_does_not_cover() {
    let mut a = timeline(
        0,
        0.0,
        vec![
            seg(1.0, SEC, AnimationLinker::Linear),
            seg(2.0, SEC, AnimationLinker::Linear),
            seg(3.0, SEC, AnimationLinker::Linear),
            seg(4.0, SEC, AnimationLinker::Linear),
        ],
    );
    let b = timeline(SEC / 2, 9.0, vec![seg(8.0, SEC / 4, bezier())]);
    let m = a.merged(&b, AnimationLinker::Mutation);
    assert_eq!(
        m.linkers,
        vec![
            seg(9.0, SEC / 2, AnimationLinker::Mutation),
            seg(8.0, SEC / 4, bezier()),
            seg(3.0, SEC, AnimationLinker::Linear),
            seg(4.0, SEC, AnimationLinker::Linear),
        ]
    );
    let mut b2 = b.clone();
    a.combine(&mut b2, AnimationLinker::Mutation);
    assert_eq!(a, m);
}

#[test]
fn combine_touching_timelines_appends_a_zero_bridge() {
    let mut a = timeline(0, 0.0, vec![seg(1.0, SEC, AnimationLinker::Linear)]);
    let mut b = timeline(SEC, 2.0, vec![seg(3.0, SEC, AnimationLinker::Linear)]);
    assert!(a.is_cross(&b));
    a.combine(&mut b, AnimationLinker::Mutation);
    assert_eq!(
        a.linkers,
        vec![
            seg(1.0, SEC, AnimationLinker::Linear),
            seg(2.0, 0, AnimationLinker::Mutation),
            seg(3.0, SEC, AnimationLinker::Linear),
        ]
    );
}

#[test]
fn is_cross_counts_touching_ends() {
    let a = timeline(0, 0.0, vec![seg(1.0, SEC, AnimationLinker::Linear)]);
    let b = timeline(SEC, 0.0, vec![seg(1.0, SEC, AnimationLinker::Linear)]);
    let c = timeline(SEC + 1, 0.0, vec![seg(1.0, SEC, AnimationLinker::Linear)]);
    assert!(a.is_cross(&b));
    assert!(b.is_cross(&a));
    assert!(!a.is_cross(&c));
    assert!(!c.is_cross(&a));
}

#[test]
fn remove_sole_inner_boundary_collapses_to_one_segment() {
    let mut a = timeline(
        0,
        0.0,
        vec![seg(1.0, SEC, AnimationLinker::Linear), seg(3.0, 2 * SEC, AnimationLinker::Mutation)],
    );
    a.remove_point(SEC);
    assert_eq!(a.linkers, vec![seg(3.0, 3 * SEC, AnimationLinker::Mutation)]);
}

#[test]
fn range_check_and_duplicate() {
    let a = timeline(0, 0.0, vec![seg(1.0, SEC, AnimationLinker::Linear)]);
    assert!(a.is_in_range());
    assert_eq!(a.duplicate(), a);
    let max: i128 = 9_223_372_036_854_775_807_999_999_999;
    let b = timeline(max, 0.0, vec![seg(1.0, 1, AnimationLinker::Linear)]);
    assert!(!b.is_in_range());
    let c = timeline(max, 0.0, vec![seg(1.0, 0, AnimationLinker::Linear)]);
    assert!(c.is_in_range());
    let d = timeline(0, 0.0, vec![seg(1.0, i128::MAX, AnimationLinker::Linear)]);
    assert!(!d.is_in_range());
}

#[test]
fn defaults() {
    assert_eq!(StyleToAnimate::default(), StyleToAnimate::Style(0));
    assert_eq!(AnimationLinker::default(), AnimationLinker::Linear);
    assert_eq!(Scalar::zero(), val(0.0));
    assert_eq!(Scalar::one(), val(1.0));
}
