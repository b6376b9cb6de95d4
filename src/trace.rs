//! A trace: an ordered list of non-overlapping segments, and the merge
//! that keeps it so while new data streams in.
use vstd::prelude::*;

use crate::segment::{
    DataSegment, Sample, SegView, SegmentState, all_in, clip, coord_ok, lemma_clip_facts, shift,
};
use crate::types::TypeTag;

verus! {

/// The views of a list of segments.
pub open spec fn views(v: Seq<DataSegment>) -> Seq<SegView> {
    v.map_values(|s: DataSegment| s@)
}

/// Every segment is well formed, and each one ends before the next begins;
/// so the list is sorted by `from` and no two ranges overlap.
pub open spec fn segs_wf(s: Seq<SegView>) -> bool {
    &&& forall|i: int| 0 <= i < s.len() ==> #[trigger] s[i].wf()
    &&& forall|i: int, j: int| #![trigger s[i], s[j]] 0 <= i < j < s.len() ==> s[i].to <= s[j].from
}

/// Some segment's range holds all of `n`'s range.
pub open spec fn covers(s: Seq<SegView>, n: SegView) -> bool {
    exists|i: int| 0 <= i < s.len() && s[i].from <= n.from && n.to <= #[trigger] s[i].to
}

/// What stays of `s` before `n`: all of it, its head, or nothing.
pub open spec fn lead_of(s: SegView, n: SegView) -> Seq<SegView> {
    if s.from < n.from {
        if s.to > n.from {
            seq![s.shrunk(s.from, n.from)]
        } else {
            seq![s]
        }
    } else {
        seq![]
    }
}

/// What stays of `s` after `n`: all of it, its tail, or nothing.
pub open spec fn trail_of(s: SegView, n: SegView) -> Seq<SegView> {
    if s.from >= n.from && s.to > n.to {
        if s.from < n.to {
            seq![s.shrunk(n.to, s.to)]
        } else {
            seq![s]
        }
    } else {
        seq![]
    }
}

pub open spec fn leading(segs: Seq<SegView>, n: SegView) -> Seq<SegView>
    decreases segs.len(),
{
    if segs.len() == 0 {
        seq![]
    } else {
        lead_of(segs[0], n) + leading(segs.drop_first(), n)
    }
}

pub open spec fn trailing(segs: Seq<SegView>, n: SegView) -> Seq<SegView>
    decreases segs.len(),
{
    if segs.len() == 0 {
        seq![]
    } else {
        trail_of(segs[0], n) + trailing(segs.drop_first(), n)
    }
}

/// The segment list after pushing `n`: unchanged if a segment already
/// covers `n`; otherwise the segments before `n` (the one overlapping its
/// leading edge cut back), then `n`, then the segments after it (the one
/// overlapping its trailing edge cut back). Segments inside `n` are gone.
pub open spec fn merged(segs: Seq<SegView>, n: SegView) -> Seq<SegView> {
    if covers(segs, n) {
        segs
    } else {
        leading(segs, n) + seq![n] + trailing(segs, n)
    }
}

/// The samples in `[from, to)` of the complete segments, segment after
/// segment.
pub open spec fn points(segs: Seq<SegView>, from: int, to: int) -> Seq<Sample>
    decreases segs.len(),
{
    if segs.len() == 0 {
        seq![]
    } else {
        let r = points(segs.drop_last(), from, to);
        if segs.last().state == SegmentState::Complete {
            r + clip(segs.last().data, from, to)
        } else {
            r
        }
    }
}

proof fn lemma_shrunk_wf(s: SegView, from: int, to: int)
    requires
        s.wf(),
        s.from <= from < to <= s.to,
    ensures
        s.shrunk(from, to).wf(),
{
    lemma_clip_facts(s.data, from, to);
}

proof fn lemma_leading(segs: Seq<SegView>, n: SegView)
    requires
        segs_wf(segs),
        n.wf(),
    ensures
        segs_wf(leading(segs, n)),
        forall|k: int| 0 <= k < leading(segs, n).len() ==> #[trigger] leading(segs, n)[k].to <= n.from,
        segs.len() > 0 ==> forall|k: int|
            0 <= k < leading(segs, n).len() ==> #[trigger] leading(segs, n)[k].from >= segs[0].from,
    decreases segs.len(),
{
    if segs.len() > 0 {
        let rest = segs.drop_first();
        assert(segs_wf(rest)) by {
            assert forall|i: int, j: int| #![trigger rest[i], rest[j]] 0 <= i < j < rest.len() implies rest[i].to <= rest[j].from by {
                assert(segs[i + 1].to <= segs[j + 1].from);
            }
        }
        lemma_leading(rest, n);
        let s = segs[0];
        assert(s.wf());
        if s.from < n.from && s.to > n.from {
            lemma_shrunk_wf(s, s.from, n.from);
        }
        let h = lead_of(s, n);
        let t = leading(rest, n);
        if rest.len() > 0 {
            assert(s.to <= rest[0].from);
            assert(segs[1] == rest[0]);
        }
        assert(forall|i: int| 0 <= i < h.len() ==> h[i].to <= s.to);
        assert(h + t =~= leading(segs, n));
    }
}

proof fn lemma_trailing(segs: Seq<SegView>, n: SegView)
    requires
        segs_wf(segs),
        n.wf(),
    ensures
        segs_wf(trailing(segs, n)),
        forall|k: int|
            0 <= k < trailing(segs, n).len() ==> #[trigger] trailing(segs, n)[k].from >= n.to,
        segs.len() > 0 ==> forall|k: int|
            0 <= k < trailing(segs, n).len() ==> #[trigger] trailing(segs, n)[k].from >= segs[0].from,
    decreases segs.len(),
{
    if segs.len() > 0 {
        let rest = segs.drop_first();
        assert(segs_wf(rest)) by {
            assert forall|i: int, j: int| #![trigger rest[i], rest[j]] 0 <= i < j < rest.len() implies rest[i].to <= rest[j].from by {
                assert(segs[i + 1].to <= segs[j + 1].from);
            }
        }
        lemma_trailing(rest, n);
        let s = segs[0];
        assert(s.wf());
        if s.from >= n.from && s.to > n.to && s.from < n.to {
            lemma_shrunk_wf(s, n.to, s.to);
        }
        let h = trail_of(s, n);
        let t = trailing(rest, n);
        if rest.len() > 0 {
            assert(s.to <= rest[0].from);
            assert(segs[1] == rest[0]);
        }
        assert(forall|i: int| 0 <= i < h.len() ==> h[i].to <= s.to);
        assert(h + t =~= trailing(segs, n));
    }
}

/// Pushing a segment keeps the list sorted by `from` and free of overlaps.
pub proof fn lemma_merged_wf(segs: Seq<SegView>, n: SegView)
    requires
        segs_wf(segs),
        n.wf(),
    ensures
        segs_wf(merged(segs, n)),
{
    if !covers(segs, n) {
        lemma_leading(segs, n);
        lemma_trailing(segs, n);
        let l = leading(segs, n);
        let t = trailing(segs, n);
        let m = l + seq![n] + t;
        assert forall|i: int| 0 <= i < m.len() implies #[trigger] m[i].wf() by {
            if i < l.len() {
                assert(m[i] == l[i]);
            } else if i > l.len() {
                assert(m[i] == t[i - l.len() - 1]);
            }
        }
        assert forall|i: int, j: int| #![trigger m[i], m[j]] 0 <= i < j < m.len() implies m[i].to <= m[j].from by {
            if j < l.len() {
                assert(m[i] == l[i] && m[j] == l[j]);
            } else if j == l.len() {
                assert(m[i] == l[i]);
            } else if i > l.len() {
                assert(m[i] == t[i - l.len() - 1] && m[j] == t[j - l.len() - 1]);
            } else if i == l.len() {
                assert(m[j] == t[j - l.len() - 1]);
            } else {
                assert(m[i] == l[i] && m[j] == t[j - l.len() - 1]);
                assert(l[i].to <= n.from);
            }
        }
    }
}

/// Full containment is a no-op: pushing a segment whose range an existing
/// segment already covers leaves the list as it was.
pub proof fn lemma_covered_push_is_noop(segs: Seq<SegView>, n: SegView)
    requires
        covers(segs, n),
    ensures
        merged(segs, n) == segs,
{
}

proof fn lemma_points_concat(a: Seq<SegView>, b: Seq<SegView>, from: int, to: int)
    ensures
        points(a + b, from, to) == points(a, from, to) + points(b, from, to),
    decreases b.len(),
{
    if b.len() == 0 {
        assert(a + b =~= a);
        assert(points(a, from, to) + points(b, from, to) =~= points(a, from, to));
    } else {
        lemma_points_concat(a, b.drop_last(), from, to);
        assert((a + b).drop_last() =~= a + b.drop_last());
        assert((a + b).last() == b.last());
        let c = clip(b.last().data, from, to);
        if b.last().state == SegmentState::Complete {
            assert(points(a, from, to) + (points(b.drop_last(), from, to) + c) =~= (points(
                a,
                from,
                to,
            ) + points(b.drop_last(), from, to)) + c);
        }
    }
}

proof fn lemma_clip_outside(d: Seq<Sample>, lo: int, hi: int, from: int, to: int)
    requires
        all_in(d, lo, hi),
        hi <= from || to <= lo,
    ensures
        clip(d, from, to) == Seq::<Sample>::empty(),
    decreases d.len(),
{
    if d.len() > 0 {
        lemma_clip_outside(d.drop_last(), lo, hi, from, to);
        assert(d[d.len() - 1] == d.last());
    }
}

proof fn lemma_points_outside(segs: Seq<SegView>, from: int, to: int)
    requires
        forall|i: int| 0 <= i < segs.len() ==> #[trigger] segs[i].wf(),
        forall|i: int| 0 <= i < segs.len() ==> #[trigger] segs[i].to <= from || to <= segs[i].from,
    ensures
        points(segs, from, to) == Seq::<Sample>::empty(),
    decreases segs.len(),
{
    if segs.len() > 0 {
        let d = segs.drop_last();
        assert forall|i: int| 0 <= i < d.len() implies #[trigger] d[i].wf() by {
            assert(d[i] == segs[i]);
        }
        assert forall|i: int| 0 <= i < d.len() implies #[trigger] d[i].to <= from || to <= d[i].from by {
            assert(d[i] == segs[i]);
        }
        lemma_points_outside(d, from, to);
        let l = segs[segs.len() - 1];
        assert(l == segs.last());
        assert(segs[segs.len() - 1].wf());
        assert(l.to <= from || to <= l.from);
        lemma_clip_outside(l.data, l.from, l.to, from, to);
        assert(Seq::<Sample>::empty() + Seq::<Sample>::empty() =~= Seq::<Sample>::empty());
    }
}

/// Overlap tie-break: after a push that is not already covered, a query
/// over the new segment's range returns exactly the new segment's data;
/// nothing of what it overlapped is left there.
pub proof fn lemma_new_data_wins(segs: Seq<SegView>, n: SegView)
    requires
        segs_wf(segs),
        n.wf(),
        n.state == SegmentState::Complete,
        !covers(segs, n),
    ensures
        points(merged(segs, n), n.from, n.to) == n.data,
{
    lemma_leading(segs, n);
    lemma_trailing(segs, n);
    let l = leading(segs, n);
    let t = trailing(segs, n);
    assert forall|i: int| 0 <= i < l.len() implies #[trigger] l[i].to <= n.from || n.to <= l[i].from by {}
    assert forall|i: int| 0 <= i < t.len() implies #[trigger] t[i].to <= n.from || n.to <= t[i].from by {
        assert(t[i].from >= n.to);
    }
    lemma_points_outside(l, n.from, n.to);
    lemma_points_outside(t, n.from, n.to);
    lemma_points_concat(l, seq![n], n.from, n.to);
    lemma_points_concat(l + seq![n], t, n.from, n.to);
    assert(seq![n].drop_last() =~= Seq::<SegView>::empty());
    assert(seq![n].last() == n);
    crate::segment::lemma_clip_all_in(n.data, n.from, n.to);
    assert(points(Seq::<SegView>::empty(), n.from, n.to) == Seq::<Sample>::empty());
    assert(points(seq![n], n.from, n.to) == Seq::<Sample>::empty() + clip(n.data, n.from, n.to));
    assert(points(seq![n], n.from, n.to) =~= n.data);
    assert(Seq::<Sample>::empty() + n.data + Seq::<Sample>::empty() =~= n.data);
}

/// The samples a query returns come in ascending x order, within the
/// segments' span.
pub proof fn lemma_points_sorted(segs: Seq<SegView>, from: int, to: int)
    requires
        segs_wf(segs),
    ensures
        crate::segment::sorted(points(segs, from, to)),
        segs.len() > 0 ==> forall|k: int|
            0 <= k < points(segs, from, to).len() ==> #[trigger] points(segs, from, to)[k].x
                < segs.last().to,
    decreases segs.len(),
{
    if segs.len() > 0 {
        let d = segs.drop_last();
        assert(segs_wf(d)) by {
            assert forall|i: int, j: int| #![trigger d[i], d[j]] 0 <= i < j < d.len() implies d[i].to
                <= d[j].from by {
                assert(segs[i] == d[i] && segs[j] == d[j]);
            }
            assert forall|i: int| 0 <= i < d.len() implies #[trigger] d[i].wf() by {
                assert(segs[i] == d[i]);
            }
        }
        lemma_points_sorted(d, from, to);
        let l = segs.last();
        assert(segs[segs.len() - 1] == l);
        assert(l.wf());
        let p = points(d, from, to);
        let c = clip(l.data, from, to);
        lemma_clip_facts(l.data, from, to);
        if d.len() > 0 {
            assert(d.last() == segs[segs.len() - 2]);
            assert(d.last().to <= l.from);
        }
        assert forall|k: int| 0 <= k < c.len() implies l.from <= #[trigger] c[k].x < l.to by {
            let j = choose|j: int| 0 <= j < l.data.len() && l.data[j] == c[k];
            assert(l.data[j].x < l.to);
        }
        if l.state == SegmentState::Complete {
            let q = p + c;
            assert forall|a: int, b: int| 0 <= a < b < q.len() implies q[a].x <= q[b].x by {
                if b < p.len() {
                    assert(q[a] == p[a] && q[b] == p[b]);
                } else if a >= p.len() {
                    assert(q[a] == c[a - p.len()] && q[b] == c[b - p.len()]);
                } else {
                    assert(q[a] == p[a] && q[b] == c[b - p.len()]);
                    assert(p[a].x < d.last().to);
                }
            }
            assert forall|k: int| 0 <= k < q.len() implies #[trigger] q[k].x < l.to by {
                if k < p.len() {
                    assert(q[k] == p[k]);
                    assert(p[k].x < d.last().to);
                } else {
                    assert(q[k] == c[k - p.len()]);
                }
            }
        } else {
            assert forall|k: int| 0 <= k < p.len() implies #[trigger] p[k].x < l.to by {
                assert(p[k].x < d.last().to);
            }
        }
    }
}

/// A named time series made of segments.
pub struct TraceData {
    pub id: String,
    pub x_type: TypeTag,
    pub segments: Vec<DataSegment>,
}

impl TraceData {
    pub open spec fn wf(&self) -> bool {
        segs_wf(views(self.segments@))
    }

    /// An empty trace.
    pub fn new(id: String, x_type: TypeTag) -> (r: TraceData)
        ensures
            r.id@ == id@,
            r.x_type == x_type,
            r.segments@.len() == 0,
            r.wf(),
    {
        TraceData { id, x_type, segments: Vec::new() }
    }

    pub fn get_x_type(&self) -> (r: TypeTag)
        ensures
            r == self.x_type,
    {
        self.x_type
    }

    /// Merges `seg` into the trace. A segment already covered is dropped;
    /// otherwise the new data wins over what it overlaps.
    pub fn push_segment(&mut self, seg: DataSegment)
        requires
            old(self).wf(),
            seg.wf(),
        ensures
            views(final(self).segments@) == merged(views(old(self).segments@), seg@),
            final(self).wf(),
            final(self).id == old(self).id,
            final(self).x_type == old(self).x_type,
    {
        let ghost orig = views(self.segments@);
        let mut i: usize = 0;
        while i < self.segments.len()
            invariant
                i <= self.segments@.len(),
                orig == views(self.segments@),
                segs_wf(orig),
                self.id == old(self).id,
                self.x_type == old(self).x_type,
                self.segments == old(self).segments,
                forall|k: int|
                    0 <= k < i ==> !(orig[k].from <= seg.from && seg.to <= #[trigger] orig[k].to),
            decreases self.segments@.len() - i,
        {
            if self.segments[i].from <= seg.from && seg.to <= self.segments[i].to {
                assert(orig[i as int] == self.segments@[i as int]@);
                assert(orig[i as int].from <= seg@.from && seg@.to <= orig[i as int].to);
                assert(covers(orig, seg@));
                return;
            }
            i += 1;
        }
        assert(!covers(orig, seg@));
        let mut rest: Vec<DataSegment> = Vec::new();
        std::mem::swap(&mut self.segments, &mut rest);
        let mut lead: Vec<DataSegment> = Vec::new();
        let mut trail: Vec<DataSegment> = Vec::new();
        while rest.len() > 0
            invariant
                segs_wf(views(rest@)),
                seg.wf(),
                views(lead@) + leading(views(rest@), seg@) == leading(orig, seg@),
                views(trail@) + trailing(views(rest@), seg@) == trailing(orig, seg@),
            decreases rest@.len(),
        {
            let ghost before = views(rest@);
            let mut s = rest.remove(0);
            assert(views(rest@) =~= before.drop_first());
            assert(before[0] == s@);
            assert(s.wf());
            if s.from < seg.from {
                if s.to > seg.from {
                    let f = s.from;
                    s.shrink(f, seg.from);
                }
                lead.push(s);
            } else if s.to > seg.to {
                if s.from < seg.to {
                    let t = s.to;
                    s.shrink(seg.to, t);
                }
                trail.push(s);
            }
            assert(segs_wf(views(rest@))) by {
                let vr = views(rest@);
                assert forall|a: int, b: int| #![trigger vr[a], vr[b]]
                    0 <= a < b < vr.len() implies vr[a].to <= vr[b].from by {
                    assert(before[a + 1].to <= before[b + 1].from);
                }
            }
        }
        assert(views(rest@) =~= Seq::<SegView>::empty());
        lead.push(seg);
        lead.append(&mut trail);
        self.segments = lead;
        proof {
            assert(views(self.segments@) =~= merged(orig, seg@));
            lemma_merged_wf(orig, seg@);
        }
    }

    /// The samples in `[from, to)` of every complete segment, in segment
    /// order.
    pub fn get_data_in(&self, from: i128, to: i128) -> (r: Vec<Sample>)
        requires
            self.wf(),
        ensures
            r@ == points(views(self.segments@), from as int, to as int),
            crate::segment::sorted(r@),
    {
        let mut out: Vec<Sample> = Vec::new();
        let mut i: usize = 0;
        while i < self.segments.len()
            invariant
                i <= self.segments@.len(),
                self.wf(),
                out@ == points(views(self.segments@).take(i as int), from as int, to as int),
            decreases self.segments@.len() - i,
        {
            let ghost segs = views(self.segments@);
            assert(segs.take(i + 1).drop_last() =~= segs.take(i as int));
            assert(segs[i as int] == self.segments@[i as int]@);
            assert(segs[i as int].wf());
            if self.segments[i].state == SegmentState::Complete {
                let mut part = self.segments[i].iter_in(from, to);
                out.append(&mut part);
            }
            i += 1;
        }
        assert(views(self.segments@).take(self.segments@.len() as int) =~= views(self.segments@));
        proof {
            lemma_points_sorted(views(self.segments@), from as int, to as int);
        }
        out
    }

    /// The samples of `get_data_in`, with x taken relative to `x_orig`.
    pub fn get_data_with_origin(&self, from: i128, to: i128, x_orig: i128) -> (r: Vec<Sample>)
        requires
            self.wf(),
            coord_ok(x_orig as int),
        ensures
            r@ == shift(points(views(self.segments@), from as int, to as int), x_orig as int),
    {
        let mut out: Vec<Sample> = Vec::new();
        let mut i: usize = 0;
        while i < self.segments.len()
            invariant
                i <= self.segments@.len(),
                self.wf(),
                coord_ok(x_orig as int),
                out@ == shift(
                    points(views(self.segments@).take(i as int), from as int, to as int),
                    x_orig as int,
                ),
            decreases self.segments@.len() - i,
        {
            let ghost segs = views(self.segments@);
            assert(segs.take(i + 1).drop_last() =~= segs.take(i as int));
            assert(segs[i as int] == self.segments@[i as int]@);
            assert(segs[i as int].wf());
            if self.segments[i].state == SegmentState::Complete {
                let mut part = self.segments[i].iter_with_origin(from, to, x_orig);
                let ghost prev = points(segs.take(i as int), from as int, to as int);
                let ghost c = clip(segs[i as int].data, from as int, to as int);
                assert(shift(prev + c, x_orig as int) =~= shift(prev, x_orig as int) + shift(
                    c,
                    x_orig as int,
                ));
                out.append(&mut part);
            }
            i += 1;
        }
        assert(views(self.segments@).take(self.segments@.len() as int) =~= views(self.segments@));
        out
    }
}

} // verus!
