//! One frame's drawing instructions, built by the host and consumed once.
use vstd::prelude::*;

use crate::bundle::Rgb;

verus! {

/// An ad-hoc trace to draw as a polyline.
#[derive(Debug, Clone, Copy, PartialEq, Eq, Structural)]
pub struct TraceStyle {
    pub idx: usize,
    pub color: Rgb,
    pub width: u32,
}

/// What to draw in one frame. Ranges are in whole axis units.
pub struct RenderJob {
    pub clear: bool,
    pub x_type: String,
    pub x_from: i64,
    pub x_to: i64,
    pub y_from: i64,
    pub y_to: i64,
    pub render_grid: bool,
    pub render_axes: bool,
    pub render_labels: bool,
    pub margin: u32,
    pub x_label_space: u32,
    pub y_label_space: u32,
    pub traces: Vec<TraceStyle>,
    pub bundles: Vec<usize>,
    pub bundle_blacklist: Vec<usize>,
}

impl RenderJob {
    pub open spec fn spec_x_type(&self) -> Seq<char> {
        self.x_type@
    }

    pub open spec fn spec_traces(&self) -> Seq<TraceStyle> {
        self.traces@
    }

    pub open spec fn spec_bundles(&self) -> Seq<usize> {
        self.bundles@
    }

    /// The traces whose bundle buffers are not drawn.
    pub open spec fn spec_blacklist(&self) -> Set<usize> {
        self.bundle_blacklist@.to_set()
    }

    /// A job that clears and draws grid, axes and labels over empty
    /// ranges, with no traces and no bundles yet.
    pub fn new(x_type: String, trace_count: usize, bundle_count: usize) -> (r: RenderJob)
        ensures
            r.clear && r.render_grid && r.render_axes && r.render_labels,
            r.x_from == 0 && r.x_to == 0 && r.y_from == 0 && r.y_to == 0,
            r.margin == 0 && r.x_label_space == 0 && r.y_label_space == 0,
            r.spec_x_type() == x_type@,
            r.spec_traces() == Seq::<TraceStyle>::empty(),
            r.spec_bundles() == Seq::<usize>::empty(),
            r.spec_blacklist() == Set::<usize>::empty(),
    {
        let r = RenderJob {
            clear: true,
            x_type,
            x_from: 0,
            x_to: 0,
            y_from: 0,
            y_to: 0,
            render_grid: true,
            render_axes: true,
            render_labels: true,
            margin: 0,
            x_label_space: 0,
            y_label_space: 0,
            traces: Vec::with_capacity(trace_count),
            bundles: Vec::with_capacity(bundle_count),
            bundle_blacklist: Vec::new(),
        };
        assert(r.bundle_blacklist@.to_set() =~= Set::<usize>::empty());
        r
    }

    /// Queues an ad-hoc trace.
    pub fn add_trace(&mut self, idx: usize, color: Rgb, width: u32)
        ensures
            final(self).spec_traces() == old(self).spec_traces().push(
                TraceStyle { idx, color, width },
            ),
            final(self).spec_bundles() == old(self).spec_bundles(),
            final(self).spec_blacklist() == old(self).spec_blacklist(),
            final(self).spec_x_type() == old(self).spec_x_type(),
    {
        self.traces.push(TraceStyle { idx, color, width });
    }

    /// Queues a bundle.
    pub fn add_bundle(&mut self, idx: usize)
        ensures
            final(self).spec_bundles() == old(self).spec_bundles().push(idx),
            final(self).spec_traces() == old(self).spec_traces(),
            final(self).spec_blacklist() == old(self).spec_blacklist(),
            final(self).spec_x_type() == old(self).spec_x_type(),
    {
        self.bundles.push(idx);
    }

    /// Keeps a trace's buffers out of every bundle drawn by this job.
    pub fn blacklist_trace(&mut self, handle: usize)
        ensures
            final(self).spec_blacklist() == old(self).spec_blacklist().insert(handle),
            final(self).spec_traces() == old(self).spec_traces(),
            final(self).spec_bundles() == old(self).spec_bundles(),
            final(self).spec_x_type() == old(self).spec_x_type(),
    {
        self.bundle_blacklist.push(handle);
        proof {
            old(self).bundle_blacklist@.lemma_push_to_set_commute(handle);
        }
    }

    pub fn is_blacklisted(&self, handle: usize) -> (r: bool)
        ensures
            r == self.spec_blacklist().contains(handle),
    {
        let mut i: usize = 0;
        while i < self.bundle_blacklist.len()
            invariant
                i <= self.bundle_blacklist@.len(),
                forall|k: int| 0 <= k < i ==> self.bundle_blacklist@[k] != handle,
            decreases self.bundle_blacklist@.len() - i,
        {
            if self.bundle_blacklist[i] == handle {
                assert(self.bundle_blacklist@.contains(handle));
                return true;
            }
            i += 1;
        }
        assert(!self.bundle_blacklist@.contains(handle));
        false
    }

    pub fn get_traces(&self) -> (r: &Vec<TraceStyle>)
        ensures
            r@ == self.spec_traces(),
    {
        &self.traces
    }

    pub fn get_bundles(&self) -> (r: &Vec<usize>)
        ensures
            r@ == self.spec_bundles(),
    {
        &self.bundles
    }

    pub fn get_x_type(&self) -> (r: &String)
        ensures
            r@ == self.spec_x_type(),
    {
        &self.x_type
    }
}

} // verus!
