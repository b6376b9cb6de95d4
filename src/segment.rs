//! A segment: a contiguous, loaded chunk of one trace.
use vstd::prelude::*;

use crate::error::PlotError;
use crate::types::Value;

verus! {

/// Bound on the magnitude of every range coordinate. It leaves room for
/// any 64-bit x value, one past the largest, and the offsets between two
/// such values.
pub const COORD_LIMIT: i128 = 0x4_0000_0000_0000_0000;

pub open spec fn coord_ok(v: int) -> bool {
    -COORD_LIMIT <= v <= COORD_LIMIT
}

/// One (x, y) point.
#[derive(Debug, Clone, Copy, PartialEq, Eq, Structural)]
pub struct Sample {
    pub x: i128,
    pub y: Value,
}

/// Loading state of a segment; only complete segments answer queries.
#[derive(Debug, Clone, Copy, PartialEq, Eq, Structural)]
pub enum SegmentState {
    Loading,
    Error,
    Complete,
}

/// The samples of `d` whose x lies in `[from, to)`, in their order.
pub open spec fn clip(d: Seq<Sample>, from: int, to: int) -> Seq<Sample>
    decreases d.len(),
{
    if d.len() == 0 {
        seq![]
    } else {
        let r = clip(d.drop_last(), from, to);
        if from <= d.last().x < to {
            r.push(d.last())
        } else {
            r
        }
    }
}

/// `d` with every x moved by `-orig`.
pub open spec fn shift(d: Seq<Sample>, orig: int) -> Seq<Sample> {
    d.map_values(|s: Sample| Sample { x: (s.x - orig) as i128, y: s.y })
}

/// x values never decrease along `d`.
pub open spec fn sorted(d: Seq<Sample>) -> bool {
    forall|i: int, j: int| 0 <= i < j < d.len() ==> d[i].x <= d[j].x
}

/// Every x of `d` lies in `[from, to)`.
pub open spec fn all_in(d: Seq<Sample>, from: int, to: int) -> bool {
    forall|i: int| 0 <= i < d.len() ==> from <= #[trigger] d[i].x < to
}

/// What a segment holds, as mathematical values.
pub struct SegView {
    pub from: int,
    pub to: int,
    pub state: SegmentState,
    pub data: Seq<Sample>,
}

impl SegView {
    /// A non-empty range within the coordinate bound, and data sorted by x
    /// that lies inside the range.
    pub open spec fn wf(self) -> bool {
        &&& coord_ok(self.from)
        &&& coord_ok(self.to)
        &&& self.from < self.to
        &&& sorted(self.data)
        &&& all_in(self.data, self.from, self.to)
    }

    /// The segment re-clipped to `[from, to)`.
    pub open spec fn shrunk(self, from: int, to: int) -> SegView {
        SegView { from, to, state: self.state, data: clip(self.data, from, to) }
    }
}

pub proof fn lemma_clip_facts(d: Seq<Sample>, from: int, to: int)
    ensures
        all_in(clip(d, from, to), from, to),
        clip(d, from, to).len() <= d.len(),
        forall|k: int|
            0 <= k < clip(d, from, to).len() ==> d.contains(#[trigger] clip(d, from, to)[k]),
        sorted(d) ==> sorted(clip(d, from, to)),
    decreases d.len(),
{
    if d.len() > 0 {
        let d0 = d.drop_last();
        lemma_clip_facts(d0, from, to);
        let r = clip(d0, from, to);
        assert forall|k: int| 0 <= k < r.len() implies d.contains(#[trigger] r[k]) by {
            let j = choose|j: int| 0 <= j < d0.len() && d0[j] == r[k];
            assert(d[j] == r[k]);
        }
        assert(d[d.len() - 1] == d.last());
        if sorted(d) {
            assert forall|k: int| 0 <= k < r.len() implies r[k].x <= d.last().x by {
                let j = choose|j: int| 0 <= j < d0.len() && d0[j] == r[k];
                assert(d[j] == r[k]);
            }
        }
    }
}

/// Clipping an already clipped sequence to a sub-range is clipping once.
pub proof fn lemma_clip_all_in(d: Seq<Sample>, from: int, to: int)
    requires
        all_in(d, from, to),
    ensures
        clip(d, from, to) == d,
    decreases d.len(),
{
    if d.len() > 0 {
        lemma_clip_all_in(d.drop_last(), from, to);
        assert(d[d.len() - 1] == d.last());
        assert(d.drop_last().push(d.last()) =~= d);
    }
}

/// A segment of one trace: its validity range `[from, to)`, its loading
/// state and its samples.
pub struct DataSegment {
    pub from: i128,
    pub to: i128,
    pub state: SegmentState,
    pub data: Vec<Sample>,
}

impl View for DataSegment {
    type V = SegView;

    open spec fn view(&self) -> SegView {
        SegView { from: self.from as int, to: self.to as int, state: self.state, data: self.data@ }
    }
}

/// The samples of `d` in `[from, to)`, moved by `-orig`.
fn clip_vec(d: &Vec<Sample>, from: i128, to: i128, orig: i128) -> (r: Vec<Sample>)
    requires
        forall|i: int| 0 <= i < d@.len() ==> coord_ok(#[trigger] d@[i].x as int),
        coord_ok(orig as int),
    ensures
        r@ == shift(clip(d@, from as int, to as int), orig as int),
{
    let mut out: Vec<Sample> = Vec::new();
    let mut i: usize = 0;
    while i < d.len()
        invariant
            i <= d@.len(),
            forall|k: int| 0 <= k < d@.len() ==> coord_ok(#[trigger] d@[k].x as int),
            coord_ok(orig as int),
            out@ == shift(clip(d@.take(i as int), from as int, to as int), orig as int),
        decreases d@.len() - i,
    {
        let s = d[i];
        assert(d@.take(i + 1).drop_last() =~= d@.take(i as int));
        assert(d@.take(i + 1).last() == s);
        if from <= s.x && s.x < to {
            out.push(Sample { x: s.x - orig, y: s.y });
            assert(out@ =~= shift(clip(d@.take(i + 1), from as int, to as int), orig as int));
        } else {
            assert(out@ =~= shift(clip(d@.take(i + 1), from as int, to as int), orig as int));
        }
        i += 1;
    }
    assert(d@.take(d@.len() as int) =~= d@);
    out
}

proof fn lemma_shift_zero(d: Seq<Sample>)
    ensures
        shift(d, 0) == d,
{
    assert(shift(d, 0) =~= d);
}

impl DataSegment {
    pub open spec fn wf(&self) -> bool {
        self@.wf()
    }

    /// A complete segment over `[from, to)` holding `data`.
    pub fn new(from: i128, to: i128, data: Vec<Sample>) -> (r: Result<DataSegment, PlotError>)
        ensures
            !(coord_ok(from as int) && coord_ok(to as int) && from < to) ==> r == Err::<
                DataSegment,
                PlotError,
            >(PlotError::InvalidRange),
            coord_ok(from as int) && coord_ok(to as int) && from < to ==> {
                &&& !(sorted(data@) && all_in(data@, from as int, to as int)) ==> r is Err && r->Err_0
                    == PlotError::MalformedRow
                &&& sorted(data@) && all_in(data@, from as int, to as int) ==> r is Ok && r->Ok_0@
                    == (SegView { from: from as int, to: to as int, state: SegmentState::Complete, data: data@ })
            },
    {
        DataSegment::with_state(from, to, SegmentState::Complete, data)
    }

    /// A segment over `[from, to)` in the given loading state.
    pub fn with_state(from: i128, to: i128, state: SegmentState, data: Vec<Sample>) -> (r: Result<
        DataSegment,
        PlotError,
    >)
        ensures
            !(coord_ok(from as int) && coord_ok(to as int) && from < to) ==> r == Err::<
                DataSegment,
                PlotError,
            >(PlotError::InvalidRange),
            coord_ok(from as int) && coord_ok(to as int) && from < to ==> {
                &&& !(sorted(data@) && all_in(data@, from as int, to as int)) ==> r is Err && r->Err_0
                    == PlotError::MalformedRow
                &&& sorted(data@) && all_in(data@, from as int, to as int) ==> r is Ok && r->Ok_0@
                    == (SegView { from: from as int, to: to as int, state, data: data@ })
            },
    {
        if !(-COORD_LIMIT <= from && from < to && to <= COORD_LIMIT) {
            return Err(PlotError::InvalidRange);
        }
        let mut i: usize = 0;
        while i < data.len()
            invariant
                i <= data@.len(),
                coord_ok(from as int) && coord_ok(to as int) && from < to,
                forall|k: int| 0 <= k < i ==> from <= #[trigger] data@[k].x < to,
                forall|a: int, b: int| 0 <= a < b < i ==> data@[a].x <= data@[b].x,
            decreases data@.len() - i,
        {
            if data[i].x < from || data[i].x >= to || (i > 0 && data[i - 1].x > data[i].x) {
                return Err(PlotError::MalformedRow);
            }
            assert forall|a: int| 0 <= a < i implies data@[a].x <= data@[i as int].x by {
                if a < i - 1 {
                    assert(data@[a].x <= data@[i - 1].x);
                }
            }
            i += 1;
        }
        Ok(DataSegment { from, to, state, data })
    }

    pub fn from(&self) -> (r: i128)
        ensures
            r == self.from,
    {
        self.from
    }

    pub fn to(&self) -> (r: i128)
        ensures
            r == self.to,
    {
        self.to
    }

    /// Whether `point` lies in the segment's range.
    pub fn contains(&self, point: i128) -> (r: bool)
        ensures
            r == (self.from <= point && point < self.to),
    {
        self.from <= point && point < self.to
    }

    /// Whether the segment's range meets `[from, to)`.
    pub fn intersects(&self, from: i128, to: i128) -> (r: bool)
        ensures
            r == (self.from < to && from < self.to),
    {
        self.from < to && from < self.to
    }

    /// The samples whose x lies in `[from, to)`.
    pub fn iter_in(&self, from: i128, to: i128) -> (r: Vec<Sample>)
        requires
            self.wf(),
        ensures
            r@ == clip(self.data@, from as int, to as int),
    {
        proof {
            lemma_shift_zero(clip(self.data@, from as int, to as int));
        }
        clip_vec(&self.data, from, to, 0)
    }

    /// The samples whose x lies in `[from, to)`, with x taken relative to
    /// `x_orig`.
    pub fn iter_with_origin(&self, from: i128, to: i128, x_orig: i128) -> (r: Vec<Sample>)
        requires
            self.wf(),
            coord_ok(x_orig as int),
        ensures
            r@ == shift(clip(self.data@, from as int, to as int), x_orig as int),
    {
        clip_vec(&self.data, from, to, x_orig)
    }

    /// Re-clips the range to `[from, to)` and drops the samples outside it.
    pub fn shrink(&mut self, from: i128, to: i128)
        requires
            old(self).wf(),
            old(self).from <= from < to <= old(self).to,
        ensures
            final(self)@ == old(self)@.shrunk(from as int, to as int),
            final(self).wf(),
    {
        proof {
            lemma_shift_zero(clip(self.data@, from as int, to as int));
        }
        let kept = clip_vec(&self.data, from, to, 0);
        proof {
            lemma_clip_facts(self.data@, from as int, to as int);
        }
        self.from = from;
        self.to = to;
        self.data = kept;
    }
}

} // verus!
