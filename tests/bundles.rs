use plotting::bundle::{BundleEntry, BundleManager, Rgb, Upload};
use plotting::error::PlotError;
use plotting::frame::{plan_frame, viewport, FrameStage};
use plotting::render_job::RenderJob;
use plotting::segment::{DataSegment, Sample};
use plotting::store::TraceStore;
use plotting::stream::{parse_entries, parse_handles};
use plotting::types::Value;

const RED: Rgb = Rgb { r: 255, g: 0, b: 0 };
const BLUE: Rgb = Rgb { r: 0, g: 0, b: 255 };

fn entry(handle: usize, width: u32, color: Rgb) -> BundleEntry {
    BundleEntry { handle, width, color, points_mode: false }
}

fn up(buffer: u64) -> Option<Upload> {
    Some(Upload { buffer, points: 3 })
}

fn store_with(n: usize) -> TraceStore {
    let mut store = TraceStore::new();
    for i in 0..n {
        store.create_trace(&format!("t{}", i), "int").unwrap();
    }
    store
}

fn handles_in(m: &BundleManager, b: usize) -> Vec<(usize, u64)> {
    m.get_bundle(b).unwrap().buffers.iter().map(|e| (e.handle, e.buffer)).collect()
}

#[test]
fn bundle_diff_idempotence() {
    let store = store_with(1);
    let mut m = BundleManager::new();
    let before = m.live_buffers();
    let (h, rel) = m.create_bundle(&store, 0, 100, &[], &[]);
    let h = h.unwrap();
    assert!(rel.is_empty());
    let e = entry(0, 2, RED);
    let (r, rel) = m.rebundle(&store, h, &[e], &[up(7)], &[], &[]);
    assert_eq!(r, Ok(()));
    assert!(rel.is_empty());
    assert_eq!(m.live_buffers(), before + 1);
    let (r, rel) = m.rebundle(&store, h, &[], &[], &[e.handle], &[]);
    assert_eq!(r, Ok(()));
    assert_eq!(rel, vec![7]);
    assert!(m.get_bundle(h).unwrap().buffers.is_empty());
    assert_eq!(m.live_buffers(), before);
}

#[test]
fn create_bundle_keeps_one_buffer_per_trace() {
    let store = store_with(2);
    let mut m = BundleManager::new();
    let entries = [entry(0, 1, RED), entry(1, 1, RED), entry(0, 3, BLUE)];
    let (h, rel) = m.create_bundle(&store, 10, 20, &entries, &[up(1), up(2), up(3)]);
    assert_eq!(h, Ok(0));
    assert_eq!(rel, vec![1]);
    assert_eq!(handles_in(&m, 0), vec![(1, 2), (0, 3)]);
    assert_eq!(m.live_buffers(), 2);
}

#[test]
fn create_bundle_rolls_back_on_failure() {
    let store = store_with(2);
    let mut m = BundleManager::new();
    let entries = [entry(0, 1, RED), entry(1, 1, RED)];
    let (h, rel) = m.create_bundle(&store, 0, 10, &entries, &[up(5), None]);
    assert_eq!(h, Err(PlotError::ResourceExhausted));
    assert_eq!(rel, vec![5]);
    assert_eq!(m.live_buffers(), 0);
    let (h, rel) = m.create_bundle(&store, 0, 10, &[entry(4, 1, RED)], &[up(6)]);
    assert_eq!(h, Err(PlotError::UnknownHandle));
    assert_eq!(rel, vec![6]);
    let (h, rel) = m.create_bundle(&store, i128::MAX, i128::MAX, &[entry(0, 1, RED)], &[up(8)]);
    assert_eq!(h, Err(PlotError::InvalidRange));
    assert_eq!(rel, vec![8]);
    assert_eq!(m.create_bundle(&store, 0, 10, &[], &[]).0, Ok(0));
}

#[test]
fn rebundle_restyles_without_touching_buffers() {
    let store = store_with(2);
    let mut m = BundleManager::new();
    let (h, _) = m.create_bundle(&store, 0, 10, &[entry(0, 1, RED), entry(1, 1, RED)], &[up(1), up(2)]);
    let h = h.unwrap();
    let (r, rel) = m.rebundle(&store, h, &[], &[], &[], &[entry(1, 4, BLUE), entry(9, 4, BLUE)]);
    assert_eq!(r, Ok(()));
    assert!(rel.is_empty());
    let b = m.get_bundle(h).unwrap();
    assert_eq!((b.buffers[0].width, b.buffers[0].color), (1, RED));
    assert_eq!((b.buffers[1].width, b.buffers[1].color, b.buffers[1].buffer), (4, BLUE, 2));
}

#[test]
fn rebundle_add_replaces_and_errors_roll_back() {
    let store = store_with(2);
    let mut m = BundleManager::new();
    let (h, _) = m.create_bundle(&store, 0, 10, &[entry(0, 1, RED)], &[up(1)]);
    let h = h.unwrap();
    let (r, rel) = m.rebundle(&store, h, &[entry(0, 2, RED), entry(1, 2, RED)], &[up(3), up(4)], &[], &[]);
    assert_eq!(r, Ok(()));
    assert_eq!(rel, vec![1]);
    assert_eq!(handles_in(&m, h), vec![(0, 3), (1, 4)]);
    let (r, rel) = m.rebundle(&store, h, &[entry(1, 2, RED)], &[None], &[0], &[]);
    assert_eq!(r, Err(PlotError::ResourceExhausted));
    assert!(rel.is_empty());
    let (r, rel) = m.rebundle(&store, 7, &[entry(1, 2, RED)], &[up(9)], &[], &[]);
    assert_eq!(r, Err(PlotError::UnknownBundle));
    assert_eq!(rel, vec![9]);
    assert_eq!(handles_in(&m, h), vec![(0, 3), (1, 4)]);
}

#[test]
fn dispose_bundle_releases_everything() {
    let store = store_with(2);
    let mut m = BundleManager::new();
    let (h, _) = m.create_bundle(&store, 0, 10, &[entry(0, 1, RED), entry(1, 1, RED)], &[up(1), up(2)]);
    let h = h.unwrap();
    let (r, rel) = m.dispose_bundle(h);
    assert_eq!(r, Ok(()));
    assert_eq!(rel, vec![1, 2]);
    assert_eq!(m.live_buffers(), 0);
    assert_eq!(m.dispose_bundle(h).0, Err(PlotError::UnknownBundle));
}

#[test]
fn parse_bundle_records() {
    let bytes = [0, 0, 1, 2, 0, 0, 0, 3, 10, 20, 30, 1, 0, 0, 0, 9, 0, 0, 1, 0, 1, 2, 3, 0];
    let got = parse_entries(&bytes).unwrap();
    assert_eq!(
        got,
        vec![
            BundleEntry { handle: 258, width: 3, color: Rgb { r: 10, g: 20, b: 30 }, points_mode: true },
            BundleEntry { handle: 9, width: 256, color: Rgb { r: 1, g: 2, b: 3 }, points_mode: false },
        ]
    );
    assert_eq!(parse_entries(&bytes[..11]), Err(PlotError::MalformedRow));
    assert_eq!(parse_handles(&[0, 0, 0, 0, 0, 0, 1, 5]), Ok(vec![261]));
    assert_eq!(parse_handles(&[0, 0, 0]), Err(PlotError::MalformedRow));
}

#[test]
fn frame_plan_collects_ticks_and_draws() {
    let mut store = store_with(2);
    store
        .push_segment(0, DataSegment::new(0, 100, vec![Sample { x: 10, y: Value::Int(1) }, Sample { x: 60, y: Value::Int(2) }]).unwrap())
        .unwrap();
    let mut m = BundleManager::new();
    let (b, _) = m.create_bundle(&store, 0, 100, &[entry(0, 1, RED), entry(1, 1, RED)], &[up(1), up(2)]);
    let b = b.unwrap();
    let mut job = RenderJob::new(String::from("int"), 1, 1);
    job.x_from = 20;
    job.x_to = 120;
    job.y_from = 0;
    job.y_to = 10;
    job.margin = 5;
    job.add_trace(0, BLUE, 2);
    job.add_bundle(b);
    job.blacklist_trace(1);
    let plan = plan_frame(&job, &store, &m, 200, 100).ok().unwrap();
    assert_eq!((plan.viewport.left, plan.viewport.bottom, plan.viewport.width, plan.viewport.height), (5, 5, 190, 90));
    assert_eq!(plan.x_ticks.len(), 5);
    assert_eq!(plan.bundle_draws.len(), 1);
    assert_eq!((plan.bundle_draws[0].buffer, plan.bundle_draws[0].x_shift), (1, 20));
    assert_eq!(plan.trace_draws.len(), 1);
    assert_eq!(plan.trace_draws[0].points, vec![Sample { x: 40, y: Value::Int(2) }]);
    job.add_bundle(b + 1);
    assert_eq!(plan_frame(&job, &store, &m, 200, 100).err().unwrap().stage, FrameStage::Bundles);
}

#[test]
fn frame_fails_on_empty_viewport_or_range() {
    let store = store_with(0);
    let m = BundleManager::new();
    let mut job = RenderJob::new(String::from("int"), 0, 0);
    job.margin = 60;
    job.x_to = 10;
    job.y_to = 10;
    assert_eq!(viewport(&job, 100, 200), Err(PlotError::InvalidRange));
    assert_eq!(plan_frame(&job, &store, &m, 100, 200).err().unwrap().stage, FrameStage::Viewport);
    job.margin = 0;
    job.x_to = 0;
    let err = plan_frame(&job, &store, &m, 100, 200).err().unwrap();
    assert_eq!((err.stage, err.error), (FrameStage::Ticks, PlotError::InvalidRange));
    job.x_to = 10;
    job.add_trace(3, RED, 1);
    let err = plan_frame(&job, &store, &m, 100, 200).err().unwrap();
    assert_eq!((err.stage, err.error), (FrameStage::Traces, PlotError::UnknownHandle));
}

#[test]
fn an_empty_window_still_makes_a_bundle() {
    let store = store_with(1);
    let mut m = BundleManager::new();
    assert_eq!(store.query_with_origin(0, 10, 10, 10), Ok(vec![]));
    let (h, rel) = m.create_bundle(&store, 10, 10, &[entry(0, 1, RED)], &[Some(Upload { buffer: 4, points: 0 })]);
    assert_eq!(h, Ok(0));
    assert!(rel.is_empty());
    assert_eq!(handles_in(&m, 0), vec![(0, 4)]);
    let (h, _) = m.create_bundle(&store, 20, 5, &[], &[]);
    assert_eq!(h, Ok(1));
}
