use plotting::error::PlotError;
use plotting::segment::{DataSegment, Sample, SegmentState};
use plotting::store::TraceStore;
use plotting::types::{Value, TypeTag};

fn pt(x: i128, y: i128) -> Sample {
    Sample { x, y: Value::Int(y) }
}

fn segment(from: i128, to: i128, pts: &[(i128, i128)]) -> DataSegment {
    DataSegment::new(from, to, pts.iter().map(|&(x, y)| pt(x, y)).collect()).unwrap()
}

fn ranges(store: &TraceStore, h: usize) -> Vec<(i128, i128)> {
    store.get_trace(h).unwrap().segments.iter().map(|s| (s.from, s.to)).collect()
}

#[test]
fn add_segments() {
    let mut store = TraceStore::new();
    let ptr = store.create_trace("test", "datetime").unwrap();
    let trace = store.get_trace(ptr).unwrap();
    assert_eq!(trace.id, "test");
    assert_eq!(trace.x_type, TypeTag::Datetime);
    assert_eq!(trace.segments.is_empty(), true);
}

#[test]
fn handles_increase_and_are_not_reused() {
    let mut store = TraceStore::new();
    let a = store.create_trace("a", "int").unwrap();
    let b = store.create_trace("b", "long").unwrap();
    assert_eq!((a, b), (0, 1));
    assert_eq!(store.dispose_trace(a), Ok(()));
    let c = store.create_trace("c", "int").unwrap();
    assert_eq!(c, 2);
    assert!(store.get_trace(a).is_err());
}

#[test]
fn create_trace_rejects_unknown_and_float_x_types() {
    let mut store = TraceStore::new();
    assert_eq!(store.create_trace("t", "string"), Err(PlotError::UnknownType));
    assert_eq!(store.create_trace("t", "float"), Err(PlotError::UnknownType));
    assert_eq!(store.create_trace("t", "Int"), Err(PlotError::UnknownType));
}

#[test]
fn dispose_unknown_trace_fails() {
    let mut store = TraceStore::new();
    assert_eq!(store.dispose_trace(0), Err(PlotError::UnknownHandle));
    let h = store.create_trace("t", "int").unwrap();
    assert_eq!(store.dispose_trace(h), Ok(()));
    assert_eq!(store.dispose_trace(h), Err(PlotError::UnknownHandle));
    assert_eq!(store.query_range(h, 0, 10), Err(PlotError::UnknownHandle));
}

#[test]
fn scenario_push_then_query() {
    let mut store = TraceStore::new();
    let h = store.create_trace("t", "int").unwrap();
    store.push_segment(h, segment(0, 10, &[(0, 1), (5, 2), (9, 3)])).unwrap();
    let got = store.query_range(h, 0, 10).unwrap();
    assert_eq!(got, vec![pt(0, 1), pt(5, 2), pt(9, 3)]);
}

#[test]
fn overlap_tie_break_new_data_wins() {
    let mut store = TraceStore::new();
    let h = store.create_trace("t", "int").unwrap();
    let old: Vec<(i128, i128)> = (10..20).map(|x| (x, 100)).collect();
    let new: Vec<(i128, i128)> = (5..15).map(|x| (x, 200)).collect();
    store.push_segment(h, segment(10, 20, &old)).unwrap();
    store.push_segment(h, segment(5, 15, &new)).unwrap();
    assert_eq!(ranges(&store, h), vec![(5, 15), (15, 20)]);
    let got = store.query_range(h, 5, 20).unwrap();
    let mut want: Vec<Sample> = (5..15).map(|x| pt(x, 200)).collect();
    want.extend((15..20).map(|x| pt(x, 100)));
    assert_eq!(got, want);
}

#[test]
fn overlap_on_the_leading_edge_shrinks_the_old_head() {
    let mut store = TraceStore::new();
    let h = store.create_trace("t", "int").unwrap();
    store.push_segment(h, segment(0, 10, &[(0, 1), (4, 1), (8, 1)])).unwrap();
    store.push_segment(h, segment(5, 15, &[(5, 2), (12, 2)])).unwrap();
    assert_eq!(ranges(&store, h), vec![(0, 5), (5, 15)]);
    assert_eq!(
        store.query_range(h, 0, 15).unwrap(),
        vec![pt(0, 1), pt(4, 1), pt(5, 2), pt(12, 2)]
    );
}

#[test]
fn full_containment_is_a_no_op() {
    let mut store = TraceStore::new();
    let h = store.create_trace("t", "int").unwrap();
    store.push_segment(h, segment(10, 20, &[(10, 1), (15, 1), (19, 1)])).unwrap();
    store.push_segment(h, segment(12, 18, &[(12, 9), (17, 9)])).unwrap();
    assert_eq!(ranges(&store, h), vec![(10, 20)]);
    assert_eq!(store.query_range(h, 10, 20).unwrap(), vec![pt(10, 1), pt(15, 1), pt(19, 1)]);
}

#[test]
fn a_wider_push_removes_contained_segments() {
    let mut store = TraceStore::new();
    let h = store.create_trace("t", "int").unwrap();
    store.push_segment(h, segment(2, 4, &[(2, 1)])).unwrap();
    store.push_segment(h, segment(6, 8, &[(6, 1)])).unwrap();
    store.push_segment(h, segment(20, 30, &[(25, 1)])).unwrap();
    store.push_segment(h, segment(0, 10, &[(1, 2), (7, 2)])).unwrap();
    assert_eq!(ranges(&store, h), vec![(0, 10), (20, 30)]);
    assert_eq!(store.query_range(h, 0, 30).unwrap(), vec![pt(1, 2), pt(7, 2), pt(25, 1)]);
}

#[test]
fn segments_stay_sorted_and_disjoint() {
    let mut store = TraceStore::new();
    let h = store.create_trace("t", "long").unwrap();
    let pushes: [(i128, i128); 9] =
        [(50, 60), (10, 20), (15, 55), (0, 5), (3, 12), (58, 70), (20, 21), (-10, 100), (40, 41)];
    for (from, to) in pushes {
        store.push_segment(h, segment(from, to, &[(from, 1)])).unwrap();
        let r = ranges(&store, h);
        for w in r.windows(2) {
            assert!(w[0].0 < w[0].1);
            assert!(w[0].1 <= w[1].0, "{:?}", r);
        }
    }
    assert_eq!(ranges(&store, h), vec![(-10, 100)]);
}

#[test]
fn query_clips_to_the_range_and_skips_incomplete_segments() {
    let mut store = TraceStore::new();
    let h = store.create_trace("t", "int").unwrap();
    store.push_segment(h, segment(0, 10, &[(0, 1), (5, 2), (9, 3)])).unwrap();
    let loading = DataSegment::with_state(10, 20, SegmentState::Loading, vec![pt(12, 7)]).unwrap();
    store.push_segment(h, loading).unwrap();
    assert_eq!(store.query_range(h, 4, 20).unwrap(), vec![pt(5, 2), pt(9, 3)]);
    assert_eq!(store.query_range(h, 20, 4).unwrap(), vec![]);
}

#[test]
fn query_with_origin_moves_x() {
    let mut store = TraceStore::new();
    let h = store.create_trace("t", "int").unwrap();
    store.push_segment(h, segment(100, 110, &[(100, 1), (105, 2)])).unwrap();
    assert_eq!(store.query_with_origin(h, 0, 200, 100).unwrap(), vec![pt(0, 1), pt(5, 2)]);
}

#[test]
fn segment_constructor_checks_its_data() {
    assert_eq!(DataSegment::new(5, 5, vec![]).err(), Some(PlotError::InvalidRange));
    assert_eq!(DataSegment::new(0, 10, vec![pt(10, 0)]).err(), Some(PlotError::MalformedRow));
    assert_eq!(DataSegment::new(0, 10, vec![pt(3, 0), pt(2, 0)]).err(), Some(PlotError::MalformedRow));
    let s = DataSegment::new(0, 10, vec![pt(2, 0), pt(2, 1)]).unwrap();
    assert!(s.contains(0) && s.contains(9) && !s.contains(10));
    assert!(s.intersects(9, 20) && !s.intersects(10, 20));
}

#[test]
fn shrink_clips_range_and_data() {
    let mut s = DataSegment::new(0, 10, vec![pt(1, 1), pt(4, 2), pt(8, 3)]).unwrap();
    s.shrink(2, 8);
    assert_eq!((s.from(), s.to()), (2, 8));
    assert_eq!(s.data, vec![pt(4, 2)]);
}

#[test]
fn data_at_finds_the_first_sample_at_x() {
    let mut store = TraceStore::new();
    let h = store.create_trace("t", "int").unwrap();
    store.push_segment(h, segment(0, 10, &[(2, 5), (2, 6), (7, 1)])).unwrap();
    assert_eq!(store.data_at(h, 2), Ok(Some(Value::Int(5))));
    assert_eq!(store.data_at(h, 3), Ok(None));
    assert_eq!(store.data_at(h + 1, 2), Err(PlotError::UnknownHandle));
}

#[test]
fn trace_level_queries() {
    let mut store = TraceStore::new();
    let h = store.create_trace("t", "int").unwrap();
    store.push_segment(h, segment(0, 10, &[(1, 1), (8, 2)])).unwrap();
    store.push_segment(h, segment(10, 20, &[(12, 3)])).unwrap();
    let t = store.get_trace(h).unwrap();
    assert_eq!(t.get_x_type(), TypeTag::Int);
    assert_eq!(t.get_data_in(5, 15), vec![pt(8, 2), pt(12, 3)]);
    assert_eq!(t.get_data_with_origin(0, 20, 10), vec![pt(-9, 1), pt(-2, 2), pt(2, 3)]);
}
