use persistencelandscape::event::{event_less, event_queue, generate_initial_events, push_event, Event, EventKind};
use persistencelandscape::sweep::{handle_intersection, log_to_landscape};
use persistencelandscape::tent::{create_line_segment, create_mountain, generate_mountains, intersects_with_neighbor};
use persistencelandscape::{BirthDeath, Extended, PointOrd};

fn pt(x: i64, y: i64) -> PointOrd {
    PointOrd { x, y }
}

fn ev(x: i64, y: i64, kind: EventKind, id: usize) -> Event {
    Event { value: pt(x, y), event_type: kind, parent_mountain_id: id, parent_mountain2_id: None }
}

#[test]
fn mountain_points() {
    let m = create_mountain(1, 5, 3);
    assert_eq!(m.birth, pt(2, 0));
    assert_eq!(m.middle, pt(6, 4));
    assert_eq!(m.death, pt(10, 0));
    assert_eq!(m.id, 3);
    assert!(m.slope_rising);
    assert_eq!(m.position, None);
}

#[test]
fn mountains_skip_non_finite() {
    let pairs = vec![
        BirthDeath { birth: Extended::Finite(0), death: Extended::NonFinite },
        BirthDeath { birth: Extended::Finite(1), death: Extended::Finite(3) },
        BirthDeath { birth: Extended::NonFinite, death: Extended::NonFinite },
        BirthDeath { birth: Extended::Finite(-2), death: Extended::Finite(4) },
    ];
    let ms = generate_mountains(&pairs);
    assert_eq!(ms.len(), 2);
    assert_eq!((ms[0].low, ms[0].high, ms[0].id), (1, 3, 0));
    assert_eq!((ms[1].low, ms[1].high, ms[1].id), (-2, 4, 1));
}

#[test]
fn segment_follows_slope() {
    let mut m = create_mountain(0, 4, 0);
    let s = create_line_segment(&m);
    assert_eq!((s.start, s.end), (pt(0, 0), pt(4, 4)));
    m.slope_rising = false;
    let s = create_line_segment(&m);
    assert_eq!((s.start, s.end), (pt(4, 4), pt(8, 0)));
}

#[test]
fn crossing_of_rising_and_falling() {
    let mut a = create_mountain(0, 4, 0);
    let b = create_mountain(2, 6, 1);
    assert_eq!(intersects_with_neighbor(&a, &b), None);
    a.slope_rising = false;
    assert_eq!(intersects_with_neighbor(&a, &b), Some(pt(6, 2)));
    assert_eq!(intersects_with_neighbor(&b, &a), Some(pt(6, 2)));
}

#[test]
fn nested_tents_do_not_cross() {
    let mut a = create_mountain(0, 4, 0);
    let b = create_mountain(1, 3, 1);
    a.slope_rising = false;
    assert_eq!(intersects_with_neighbor(&a, &b), None);
}

#[test]
fn touching_at_an_end_is_no_crossing() {
    let mut a = create_mountain(0, 2, 0);
    let b = create_mountain(2, 4, 1);
    a.slope_rising = false;
    assert_eq!(intersects_with_neighbor(&a, &b), None);
}

#[test]
fn point_order() {
    assert!(pt(1, 5).less_than(&pt(2, 0)));
    assert!(pt(2, 0).less_than(&pt(2, 1)));
    assert!(!pt(2, 1).less_than(&pt(2, 1)));
    assert!(!pt(3, 0).less_than(&pt(2, 9)));
}

#[test]
fn event_order_at_one_point() {
    let d = ev(4, 0, EventKind::Death, 5);
    let b = ev(4, 0, EventKind::Birth, 1);
    assert!(event_less(&d, &b));
    assert!(!event_less(&b, &d));
    assert!(event_less(&ev(4, 0, EventKind::Birth, 1), &ev(4, 0, EventKind::Birth, 2)));
    assert!(event_less(&ev(3, 9, EventKind::Intersection, 9), &d));
}

#[test]
fn queue_takes_leftmost_last() {
    let ms = generate_mountains(&vec![
        BirthDeath { birth: Extended::Finite(2), death: Extended::Finite(6) },
        BirthDeath { birth: Extended::Finite(0), death: Extended::Finite(4) },
    ]);
    let seeds = generate_initial_events(&ms);
    assert_eq!(seeds.len(), 6);
    let mut q = event_queue(&seeds);
    let order: Vec<PointOrd> = q.iter().rev().map(|e| e.value).collect();
    assert_eq!(order, vec![pt(0, 0), pt(4, 0), pt(4, 4), pt(8, 0), pt(8, 4), pt(12, 0)]);
    push_event(&mut q, ev(6, 2, EventKind::Intersection, 0));
    let order: Vec<PointOrd> = q.iter().rev().map(|e| e.value).collect();
    assert_eq!(order, vec![pt(0, 0), pt(4, 0), pt(4, 4), pt(6, 2), pt(8, 0), pt(8, 4), pt(12, 0)]);
}

#[test]
fn recorder_skips_unrequested_ranks() {
    let mut layers: Vec<Vec<PointOrd>> = vec![Vec::new(), Vec::new()];
    log_to_landscape(&mut layers, 1, pt(3, 1));
    log_to_landscape(&mut layers, 2, pt(4, 0));
    assert_eq!(layers, vec![vec![], vec![pt(3, 1)]]);
}

#[test]
fn probe_finds_crossing_ahead() {
    let mut ms = vec![create_mountain(0, 4, 0), create_mountain(2, 6, 1)];
    ms[0].slope_rising = false;
    let status = vec![0usize, 1];
    let e = handle_intersection(&status, &ms, 1, pt(4, 4)).unwrap();
    assert_eq!(e.value, pt(6, 2));
    assert_eq!(e.event_type, EventKind::Intersection);
    assert_eq!((e.parent_mountain_id, e.parent_mountain2_id), (1, Some(0)));
    assert_eq!(handle_intersection(&status, &ms, 1, pt(7, 0)), None);
    assert_eq!(handle_intersection(&status, &ms, 0, pt(4, 4)), None);
}
