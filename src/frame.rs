//! Frame planning: everything a renderer decides for one frame, computed
//! before any drawing call. The host performs the plan with its 2D or GPU
//! backend.
use vstd::prelude::*;

use crate::bundle::{BufferEntry, BundleManager, BundleView, Rgb};
use crate::error::PlotError;
use crate::render_job::{RenderJob, TraceStyle};
use crate::segment::{Sample, shift};
use crate::store::TraceStore;
use crate::ticks::{RangeTick, calc_ticks, ticks};
use crate::trace::points;

verus! {

/// The drawable area in surface pixels, origin at the bottom left.
#[derive(Debug, Clone, Copy, PartialEq, Eq, Structural)]
pub struct Viewport {
    pub left: u32,
    pub bottom: u32,
    pub width: u32,
    pub height: u32,
}

/// The plot area left by the margins and label spaces, if it is not empty.
pub open spec fn plot_area(
    margin: int,
    x_label_space: int,
    y_label_space: int,
    surface_w: int,
    surface_h: int,
) -> Option<Viewport> {
    let w = surface_w - 2 * margin - y_label_space;
    let h = surface_h - 2 * margin - x_label_space;
    if w > 0 && h > 0 {
        Some(
            Viewport {
                left: (margin + y_label_space) as u32,
                bottom: (margin + x_label_space) as u32,
                width: w as u32,
                height: h as u32,
            },
        )
    } else {
        None
    }
}

/// The plot area for a job on a surface of the given size.
pub fn viewport(job: &RenderJob, surface_w: u32, surface_h: u32) -> (r: Result<Viewport, PlotError>)
    ensures
        r == match plot_area(
            job.margin as int,
            job.x_label_space as int,
            job.y_label_space as int,
            surface_w as int,
            surface_h as int,
        ) {
            Some(v) => Ok::<Viewport, PlotError>(v),
            None => Err(PlotError::InvalidRange),
        },
{
    let m = job.margin as i64;
    let xl = job.x_label_space as i64;
    let yl = job.y_label_space as i64;
    let w = surface_w as i64 - 2 * m - yl;
    let h = surface_h as i64 - 2 * m - xl;
    if w <= 0 || h <= 0 {
        return Err(PlotError::InvalidRange);
    }
    Ok(Viewport { left: (m + yl) as u32, bottom: (m + xl) as u32, width: w as u32, height: h as u32 })
}

/// One bundle buffer to draw, with the x shift from the bundle's window
/// start to the frame's.
#[derive(Debug, Clone, Copy, PartialEq, Eq, Structural)]
pub struct BundleDraw {
    pub bundle: usize,
    pub handle: usize,
    pub buffer: u64,
    pub points: usize,
    pub width: u32,
    pub color: Rgb,
    pub points_mode: bool,
    pub x_shift: i128,
}

/// One ad-hoc polyline, its x relative to the frame's x start.
pub struct TraceDraw {
    pub handle: usize,
    pub color: Rgb,
    pub width: u32,
    pub points: Vec<Sample>,
}

/// Where a frame stopped.
#[derive(Debug, Clone, Copy, PartialEq, Eq, Structural)]
pub enum FrameStage {
    Viewport,
    Ticks,
    Bundles,
    Traces,
}

#[derive(Debug, Clone, Copy, PartialEq, Eq, Structural)]
pub struct FrameError {
    pub stage: FrameStage,
    pub error: PlotError,
}

/// Everything one frame draws, in drawing order.
pub struct FramePlan {
    pub clear: bool,
    pub render_axes: bool,
    pub render_grid: bool,
    pub viewport: Viewport,
    pub x_ticks: Vec<RangeTick>,
    pub y_ticks: Vec<RangeTick>,
    pub bundle_draws: Vec<BundleDraw>,
    pub trace_draws: Vec<TraceDraw>,
}

pub open spec fn draw_of(bundle: usize, e: BufferEntry, x_shift: int) -> BundleDraw {
    BundleDraw {
        bundle,
        handle: e.handle,
        buffer: e.buffer,
        points: e.points,
        width: e.width,
        color: e.color,
        points_mode: e.points_mode,
        x_shift: x_shift as i128,
    }
}

/// The draws of one bundle's buffers that are not blacklisted.
pub open spec fn buffer_draws(
    bundle: usize,
    s: Seq<BufferEntry>,
    black: Set<usize>,
    x_shift: int,
) -> Seq<BundleDraw>
    decreases s.len(),
{
    if s.len() == 0 {
        seq![]
    } else {
        let r = buffer_draws(bundle, s.drop_last(), black, x_shift);
        if black.contains(s.last().handle) {
            r
        } else {
            r.push(draw_of(bundle, s.last(), x_shift))
        }
    }
}

/// The draws of the listed bundles, bundle after bundle.
pub open spec fn bundle_draws(
    v: Seq<Option<BundleView>>,
    bundles: Seq<usize>,
    black: Set<usize>,
    x_from: int,
) -> Seq<BundleDraw>
    decreases bundles.len(),
{
    if bundles.len() == 0 {
        seq![]
    } else {
        let b = bundles.last();
        let view = v[b as int]->Some_0;
        bundle_draws(v, bundles.drop_last(), black, x_from) + buffer_draws(
            b,
            view.buffers,
            black,
            x_from - view.from,
        )
    }
}

/// Which stage, if any, a frame fails at.
pub open spec fn frame_error(
    job: &RenderJob,
    store: &TraceStore,
    manager: &BundleManager,
    surface_w: int,
    surface_h: int,
) -> Option<FrameError> {
    if plot_area(
        job.margin as int,
        job.x_label_space as int,
        job.y_label_space as int,
        surface_w,
        surface_h,
    ) is None {
        Some(FrameError { stage: FrameStage::Viewport, error: PlotError::InvalidRange })
    } else if !(job.x_from < job.x_to && job.x_to - job.x_from <= i64::MAX && job.y_from < job.y_to
        && job.y_to - job.y_from <= i64::MAX) {
        Some(FrameError { stage: FrameStage::Ticks, error: PlotError::InvalidRange })
    } else if exists|i: int|
        0 <= i < job.bundles@.len() && !manager.live(#[trigger] job.bundles@[i] as int) {
        Some(FrameError { stage: FrameStage::Bundles, error: PlotError::UnknownBundle })
    } else if exists|i: int|
        0 <= i < job.traces@.len() && !store.live(#[trigger] job.traces@[i].idx as int) {
        Some(FrameError { stage: FrameStage::Traces, error: PlotError::UnknownHandle })
    } else {
        None
    }
}

/// The draws of one bundle.
fn draws_of_bundle(
    job: &RenderJob,
    bundle: usize,
    s: &Vec<BufferEntry>,
    x_shift: i128,
    out: &mut Vec<BundleDraw>,
)
    ensures
        final(out)@ == old(out)@ + buffer_draws(bundle, s@, job.spec_blacklist(), x_shift as int),
{
    let ghost start = out@;
    let mut i: usize = 0;
    while i < s.len()
        invariant
            i <= s@.len(),
            out@ == start + buffer_draws(bundle, s@.take(i as int), job.spec_blacklist(), x_shift as int),
        decreases s@.len() - i,
    {
        let e = s[i];
        assert(s@.take(i + 1).drop_last() =~= s@.take(i as int));
        assert(s@.take(i + 1).last() == e);
        if !job.is_blacklisted(e.handle) {
            out.push(
                BundleDraw {
                    bundle,
                    handle: e.handle,
                    buffer: e.buffer,
                    points: e.points,
                    width: e.width,
                    color: e.color,
                    points_mode: e.points_mode,
                    x_shift,
                },
            );
        }
        assert(out@ =~= start + buffer_draws(
            bundle,
            s@.take(i + 1),
            job.spec_blacklist(),
            x_shift as int,
        ));
        i += 1;
    }
    assert(s@.take(s@.len() as int) =~= s@);
}

/// Plans a frame: the viewport, the ticks of both axes, the buffers of the
/// listed bundles that are not blacklisted, and the points of each ad-hoc
/// trace over the x range, relative to its start. Fails at the first stage
/// that cannot be planned.
pub fn plan_frame(
    job: &RenderJob,
    store: &TraceStore,
    manager: &BundleManager,
    surface_w: u32,
    surface_h: u32,
) -> (r: Result<FramePlan, FrameError>)
    requires
        store.wf(),
        manager.wf(),
    ensures
        frame_error(job, store, manager, surface_w as int, surface_h as int) is Some ==> r == Err::<
            FramePlan,
            FrameError,
        >(frame_error(job, store, manager, surface_w as int, surface_h as int)->Some_0),
        frame_error(job, store, manager, surface_w as int, surface_h as int) is None ==> {
            &&& r is Ok
            &&& r->Ok_0.clear == job.clear
            &&& r->Ok_0.render_axes == job.render_axes
            &&& r->Ok_0.render_grid == job.render_grid
            &&& Some(r->Ok_0.viewport) == plot_area(
                job.margin as int,
                job.x_label_space as int,
                job.y_label_space as int,
                surface_w as int,
                surface_h as int,
            )
            &&& r->Ok_0.x_ticks@ == ticks(job.x_from as int, job.x_to - job.x_from)
            &&& r->Ok_0.y_ticks@ == ticks(job.y_from as int, job.y_to - job.y_from)
            &&& r->Ok_0.bundle_draws@ == bundle_draws(
                manager@,
                job.spec_bundles(),
                job.spec_blacklist(),
                job.x_from as int,
            )
            &&& r->Ok_0.trace_draws@.len() == job.spec_traces().len()
            &&& forall|i: int|
                0 <= i < job.spec_traces().len() ==> {
                    let t = job.spec_traces()[i];
                    let d = #[trigger] r->Ok_0.trace_draws@[i];
                    &&& d.handle == t.idx
                    &&& d.color == t.color
                    &&& d.width == t.width
                    &&& d.points@ == shift(
                        points(store.segs(t.idx as int), job.x_from as int, job.x_to as int),
                        job.x_from as int,
                    )
                }
        },
{
    let vp = match viewport(job, surface_w, surface_h) {
        Ok(v) => v,
        Err(e) => {
            return Err(FrameError { stage: FrameStage::Viewport, error: e });
        },
    };
    let xw = job.x_to as i128 - job.x_from as i128;
    let yw = job.y_to as i128 - job.y_from as i128;
    if xw <= 0 || xw > i64::MAX as i128 || yw <= 0 || yw > i64::MAX as i128 {
        return Err(FrameError { stage: FrameStage::Ticks, error: PlotError::InvalidRange });
    }
    let x_ticks = match calc_ticks(job.x_from, xw as i64) {
        Ok(t) => t,
        Err(e) => {
            return Err(FrameError { stage: FrameStage::Ticks, error: e });
        },
    };
    let y_ticks = match calc_ticks(job.y_from, yw as i64) {
        Ok(t) => t,
        Err(e) => {
            return Err(FrameError { stage: FrameStage::Ticks, error: e });
        },
    };
    let bundles = job.get_bundles();
    let mut bundle_out: Vec<BundleDraw> = Vec::new();
    let mut i: usize = 0;
    while i < bundles.len()
        invariant
            i <= bundles@.len(),
            plot_area(
                job.margin as int,
                job.x_label_space as int,
                job.y_label_space as int,
                surface_w as int,
                surface_h as int,
            ) is Some,
            job.x_from < job.x_to && job.x_to - job.x_from <= i64::MAX && job.y_from < job.y_to
                && job.y_to - job.y_from <= i64::MAX,
            bundles@ == job.spec_bundles(),
            manager.wf(),
            forall|k: int| 0 <= k < i ==> manager.live(#[trigger] bundles@[k] as int),
            bundle_out@ == bundle_draws(
                manager@,
                bundles@.take(i as int),
                job.spec_blacklist(),
                job.x_from as int,
            ),
        decreases bundles@.len() - i,
    {
        let b = match manager.get_bundle(bundles[i]) {
            Ok(b) => b,
            Err(e) => {
                assert(!manager.live(bundles@[i as int] as int));
                return Err(FrameError { stage: FrameStage::Bundles, error: e });
            },
        };
        assert(bundles@.take(i + 1).drop_last() =~= bundles@.take(i as int));
        assert(bundles@.take(i + 1).last() == bundles@[i as int]);
        draws_of_bundle(job, bundles[i], &b.buffers, job.x_from as i128 - b.from, &mut bundle_out);
        i += 1;
    }
    assert(bundles@.take(bundles@.len() as int) =~= bundles@);
    let traces = job.get_traces();
    let mut trace_out: Vec<TraceDraw> = Vec::new();
    let mut k: usize = 0;
    while k < traces.len()
        invariant
            k <= traces@.len(),
            plot_area(
                job.margin as int,
                job.x_label_space as int,
                job.y_label_space as int,
                surface_w as int,
                surface_h as int,
            ) is Some,
            job.x_from < job.x_to && job.x_to - job.x_from <= i64::MAX && job.y_from < job.y_to
                && job.y_to - job.y_from <= i64::MAX,
            traces@ == job.spec_traces(),
            store.wf(),
            forall|j: int| 0 <= j < job.bundles@.len() ==> manager.live(#[trigger] job.bundles@[j] as int),
            forall|j: int| 0 <= j < k ==> store.live(#[trigger] traces@[j].idx as int),
            bundle_out@ == bundle_draws(
                manager@,
                job.spec_bundles(),
                job.spec_blacklist(),
                job.x_from as int,
            ),
            trace_out@.len() == k,
            forall|j: int|
                0 <= j < k ==> {
                    let t = traces@[j];
                    let d = #[trigger] trace_out@[j];
                    &&& d.handle == t.idx
                    &&& d.color == t.color
                    &&& d.width == t.width
                    &&& d.points@ == shift(
                        points(store.segs(t.idx as int), job.x_from as int, job.x_to as int),
                        job.x_from as int,
                    )
                },
        decreases traces@.len() - k,
    {
        let t = traces[k];
        let pts = match store.query_with_origin(t.idx, job.x_from as i128, job.x_to as i128, job.x_from as i128) {
            Ok(p) => p,
            Err(e) => {
                assert(!store.live(traces@[k as int].idx as int));
                return Err(FrameError { stage: FrameStage::Traces, error: e });
            },
        };
        trace_out.push(TraceDraw { handle: t.idx, color: t.color, width: t.width, points: pts });
        k += 1;
    }
    Ok(
        FramePlan {
            clear: job.clear,
            render_axes: job.render_axes,
            render_grid: job.render_grid,
            viewport: vp,
            x_ticks,
            y_ticks,
            bundle_draws: bundle_out,
            trace_draws: trace_out,
        },
    )
}

} // verus!
