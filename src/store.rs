//! The trace store: traces in an arena indexed by handle, and the bulk
//! loader that feeds them from interleaved row buffers.
use vstd::prelude::*;

use crate::error::PlotError;
use crate::segment::{DataSegment, Sample, SegView, SegmentState, coord_ok, shift};
use crate::trace::{TraceData, covers, leading, merged, points, segs_wf, trailing, views};
use crate::types::{
    TypeTag, Value, decode_at, int_of_bytes, lemma_int_of_bytes_bound, tag_of_name, type_from_name,
    value_of_bytes,
};

verus! {

/// Bytes in one row: the x value, then one y value per trace.
pub open spec fn row_width(xt: TypeTag, yt: TypeTag, n: nat) -> nat {
    xt.spec_width() + yt.spec_width() * n
}

pub open spec fn row_count(xt: TypeTag, yt: TypeTag, n: nat, len: nat) -> nat {
    len / row_width(xt, yt, n)
}

/// The x value of row `r`.
pub open spec fn row_x(xt: TypeTag, yt: TypeTag, n: nat, data: Seq<u8>, r: int) -> int {
    let at = r * row_width(xt, yt, n);
    int_of_bytes(xt, data.subrange(at, at + xt.spec_width()))
}

/// The y value of row `r` for the `i`-th trace.
pub open spec fn row_y(xt: TypeTag, yt: TypeTag, n: nat, data: Seq<u8>, r: int, i: int) -> Value {
    let at = r * row_width(xt, yt, n) + xt.spec_width() + i * yt.spec_width();
    value_of_bytes(yt, data.subrange(at, at + yt.spec_width()))
}

/// The samples that the rows hold for the `i`-th trace.
pub open spec fn column(xt: TypeTag, yt: TypeTag, n: nat, data: Seq<u8>, i: int) -> Seq<Sample> {
    Seq::new(
        row_count(xt, yt, n, data.len()),
        |r: int| Sample { x: row_x(xt, yt, n, data, r) as i128, y: row_y(xt, yt, n, data, r, i) },
    )
}

/// The rows' x values never decrease.
pub open spec fn rows_sorted(xt: TypeTag, yt: TypeTag, n: nat, data: Seq<u8>) -> bool {
    forall|a: int, b: int|
        0 <= a < b < row_count(xt, yt, n, data.len()) ==> row_x(xt, yt, n, data, a) <= row_x(
            xt,
            yt,
            n,
            data,
            b,
        )
}

/// The segment made for the `i`-th trace: from the first x to one past the
/// last.
pub open spec fn bulk_segment(xt: TypeTag, yt: TypeTag, n: nat, data: Seq<u8>, i: int) -> SegView {
    SegView {
        from: row_x(xt, yt, n, data, 0),
        to: row_x(xt, yt, n, data, row_count(xt, yt, n, data.len()) - 1) + 1,
        state: SegmentState::Complete,
        data: column(xt, yt, n, data, i),
    }
}

/// The segments of trace `g` after the first `k` traces of `handles` got
/// their segment.
pub open spec fn loaded(
    segs: Seq<SegView>,
    g: int,
    handles: Seq<usize>,
    xt: TypeTag,
    yt: TypeTag,
    data: Seq<u8>,
    k: int,
) -> Seq<SegView>
    decreases k,
{
    if k <= 0 {
        segs
    } else {
        let r = loaded(segs, g, handles, xt, yt, data, k - 1);
        if handles[k - 1] == g && row_count(xt, yt, handles.len(), data.len()) > 0 {
            merged(r, bulk_segment(xt, yt, handles.len(), data, k - 1))
        } else {
            r
        }
    }
}

/// Where row `r` starts, and that an item of `w` bytes at offset `off` in
/// it lies inside the buffer.
proof fn lemma_row_pos(r: int, rows: int, rw: int, len: int, off: int, w: int)
    requires
        0 <= r < rows,
        rw > 0,
        len >= 0,
        rows == len / rw,
        0 <= off,
        0 <= w,
        off + w <= rw,
    ensures
        0 <= r * rw,
        r * rw + off + w <= len,
{
    vstd::arithmetic::div_mod::lemma_fundamental_div_mod(len, rw);
    assert(0 <= len % rw);
    assert(r * rw + rw <= rows * rw) by (nonlinear_arith)
        requires
            r < rows,
            rw > 0,
    ;
    assert(0 <= r * rw) by (nonlinear_arith)
        requires
            0 <= r,
            rw > 0,
    ;
}

proof fn lemma_col_pos(i: int, n: int, xw: int, yw: int)
    requires
        0 <= i < n,
        0 <= yw,
        0 <= xw,
    ensures
        0 <= i * yw,
        xw + i * yw + yw <= xw + yw * n,
{
    assert(i * yw + yw <= yw * n && 0 <= i * yw) by (nonlinear_arith)
        requires
            0 <= i < n,
            0 <= yw,
    ;
}

/// The x value that starts at `at`.
fn x_at(xt: TypeTag, data: &[u8], at: usize) -> (r: i128)
    requires
        xt.spec_is_integer(),
        at + xt.spec_width() <= data@.len(),
    ensures
        r as int == int_of_bytes(xt, data@.subrange(at as int, at + xt.spec_width())),
        -0x8000_0000_0000_0000 <= r < 0x1_0000_0000_0000_0000,
{
    proof {
        lemma_int_of_bytes_bound(xt, data@.subrange(at as int, at + xt.spec_width()));
    }
    match decode_at(xt, data, at) {
        Value::Int(v) => v,
        _ => 0,
    }
}

/// The segment that the rows give the `i`-th trace.
fn make_segment(
    xt: TypeTag,
    yt: TypeTag,
    data: &[u8],
    n: usize,
    rows: usize,
    rw: usize,
    i: usize,
) -> (seg: DataSegment)
    requires
        xt.spec_is_integer(),
        i < n,
        rows >= 1,
        rows == row_count(xt, yt, n as nat, data@.len()),
        rw == row_width(xt, yt, n as nat),
        rows_sorted(xt, yt, n as nat, data@),
    ensures
        seg@ == bulk_segment(xt, yt, n as nat, data@, i as int),
        seg.wf(),
{
    let xw = xt.width();
    let yw = yt.width();
    let len = data.len();
    let ghost xs = row_x(xt, yt, n as nat, data@, 0);
    let ghost xe = row_x(xt, yt, n as nat, data@, rows - 1);
    proof {
        lemma_row_pos(0, rows as int, rw as int, len as int, 0, xw as int);
        lemma_row_pos(rows - 1, rows as int, rw as int, len as int, 0, xw as int);
        lemma_int_of_bytes_bound(xt, data@.subrange(0, xw as int));
        let at = (rows - 1) * rw;
        lemma_int_of_bytes_bound(xt, data@.subrange(at, at + xw));
    }
    let last = (rows - 1) * rw;
    let x_first = x_at(xt, data, 0);
    let x_last = x_at(xt, data, last);
    let mut col: Vec<Sample> = Vec::new();
    let mut q: usize = 0;
    while q < rows
        invariant
            q <= rows,
            i < n,
            rows == row_count(xt, yt, n as nat, len as nat),
            rw == row_width(xt, yt, n as nat),
            len == data@.len(),
            xw == xt.spec_width(),
            yw == yt.spec_width(),
            xt.spec_is_integer(),
            col@ == column(xt, yt, n as nat, data@, i as int).take(q as int),
        decreases rows - q,
    {
        proof {
            lemma_col_pos(i as int, n as int, xw as int, yw as int);
            lemma_row_pos(q as int, rows as int, rw as int, len as int, 0, xw as int);
            lemma_row_pos(
                q as int,
                rows as int,
                rw as int,
                len as int,
                xw + i * yw,
                yw as int,
            );
        }
        let base = q * rw;
        let x = x_at(xt, data, base);
        let y = decode_at(yt, data, base + xw + i * yw);
        col.push(Sample { x, y });
        assert(col@ =~= column(xt, yt, n as nat, data@, i as int).take(q + 1));
        q += 1;
    }
    let ghost c = column(xt, yt, n as nat, data@, i as int);
    assert(col@ =~= c);
    assert forall|a: int| 0 <= a < col@.len() implies xs <= #[trigger] col@[a].x < xe + 1 by {
        assert(col@[a].x as int == row_x(xt, yt, n as nat, data@, a));
        if a > 0 {
            assert(row_x(xt, yt, n as nat, data@, 0) <= row_x(xt, yt, n as nat, data@, a));
        }
        if a < rows - 1 {
            assert(row_x(xt, yt, n as nat, data@, a) <= row_x(
                xt,
                yt,
                n as nat,
                data@,
                rows - 1,
            ));
        }
    }
    assert forall|a: int, b: int| 0 <= a < b < col@.len() implies col@[a].x <= col@[b].x by {
        assert(row_x(xt, yt, n as nat, data@, a) <= row_x(xt, yt, n as nat, data@, b));
    }
    let seg = DataSegment {
        from: x_first,
        to: x_last + 1,
        state: SegmentState::Complete,
        data: col,
    };
    assert(seg@ == bulk_segment(xt, yt, n as nat, data@, i as int));
    seg
}

/// Bulk loading with no rows leaves every trace as it was.
proof fn lemma_loaded_no_rows(
    segs: Seq<SegView>,
    g: int,
    handles: Seq<usize>,
    xt: TypeTag,
    yt: TypeTag,
    data: Seq<u8>,
    k: int,
)
    requires
        row_count(xt, yt, handles.len(), data.len()) == 0,
    ensures
        loaded(segs, g, handles, xt, yt, data, k) == segs,
    decreases k,
{
    if k > 0 {
        lemma_loaded_no_rows(segs, g, handles, xt, yt, data, k - 1);
    }
}

/// Round-trip decode: rows loaded through one handle into a trace without
/// segments come back from a query from the first x to one past the last
/// as exactly the rows' (x, y) pairs, in order.
pub proof fn lemma_bulk_round_trip(h: usize, xt: TypeTag, yt: TypeTag, data: Seq<u8>)
    requires
        xt.spec_is_integer(),
        data.len() % row_width(xt, yt, 1) == 0,
        row_count(xt, yt, 1, data.len()) > 0,
        rows_sorted(xt, yt, 1, data),
    ensures
        points(
            loaded(seq![], h as int, seq![h], xt, yt, data, 1),
            row_x(xt, yt, 1, data, 0),
            row_x(xt, yt, 1, data, row_count(xt, yt, 1, data.len()) - 1) + 1,
        ) == column(xt, yt, 1, data, 0),
{
    let rows = row_count(xt, yt, 1, data.len()) as int;
    let rw = row_width(xt, yt, 1) as int;
    let n = bulk_segment(xt, yt, 1, data, 0);
    let e = Seq::<SegView>::empty();
    assert(loaded(e, h as int, seq![h], xt, yt, data, 0) == e);
    assert(seq![h][0] == h);
    assert(!covers(e, n));
    assert(leading(e, n) == e);
    assert(trailing(e, n) == e);
    assert(merged(e, n) =~= seq![n]);
    let c = column(xt, yt, 1, data, 0);
    assert forall|r: int| 0 <= r < c.len() implies n.from <= #[trigger] c[r].x < n.to by {
        lemma_row_pos(r, rows, rw, data.len() as int, 0, xt.spec_width() as int);
        lemma_int_of_bytes_bound(xt, data.subrange(r * rw, r * rw + xt.spec_width()));
        if r > 0 {
            assert(row_x(xt, yt, 1, data, 0) <= row_x(xt, yt, 1, data, r));
        }
        if r < rows - 1 {
            assert(row_x(xt, yt, 1, data, r) <= row_x(xt, yt, 1, data, rows - 1));
        }
    }
    crate::segment::lemma_clip_all_in(c, n.from, n.to);
    assert(seq![n].drop_last() =~= e);
    assert(seq![n].last() == n);
    assert(points(e, n.from, n.to) == Seq::<Sample>::empty());
    assert(points(seq![n], n.from, n.to) =~= c);
}

/// An arena of traces. A handle is an index; a disposed trace leaves an
/// empty slot, so handles are never reused.
pub struct TraceStore {
    pub traces: Vec<Option<TraceData>>,
}

impl TraceStore {
    pub open spec fn wf(&self) -> bool {
        forall|h: int|
            0 <= h < self.traces@.len() && self.traces@[h] is Some ==> (
            #[trigger] self.traces@[h])->Some_0.wf()
    }

    pub open spec fn live(&self, h: int) -> bool {
        0 <= h < self.traces@.len() && self.traces@[h] is Some
    }

    pub open spec fn trace(&self, h: int) -> TraceData {
        self.traces@[h]->Some_0
    }

    pub open spec fn segs(&self, h: int) -> Seq<SegView> {
        views(self.trace(h).segments@)
    }

    /// Which error, if any, a bulk load of these arguments reports.
    pub open spec fn bulk_error(
        &self,
        handles: Seq<usize>,
        x_type: Seq<char>,
        y_type: Seq<char>,
        data: Seq<u8>,
    ) -> Option<PlotError> {
        match (tag_of_name(x_type), tag_of_name(y_type)) {
            (Some(xt), Some(yt)) => if !xt.spec_is_integer() {
                Some(PlotError::UnknownType)
            } else if exists|k: int| 0 <= k < handles.len() && !self.live(#[trigger] handles[k] as int) {
                Some(PlotError::UnknownHandle)
            } else if data.len() % row_width(xt, yt, handles.len()) != 0 || !rows_sorted(
                xt,
                yt,
                handles.len(),
                data,
            ) {
                Some(PlotError::MalformedRow)
            } else {
                None
            },
            _ => Some(PlotError::UnknownType),
        }
    }

    /// An empty store.
    pub fn new() -> (r: TraceStore)
        ensures
            r.wf(),
            r.traces@.len() == 0,
    {
        TraceStore { traces: Vec::new() }
    }

    /// Adds an empty trace. The x type must name an integer encoding.
    pub fn create_trace(&mut self, id: &str, x_type: &str) -> (r: Result<usize, PlotError>)
        requires
            old(self).wf(),
        ensures
            final(self).wf(),
            tag_of_name(x_type@) is None || !tag_of_name(x_type@)->Some_0.spec_is_integer() ==> r
                == Err::<usize, PlotError>(PlotError::UnknownType) && *final(self) == *old(self),
            tag_of_name(x_type@) is Some && tag_of_name(x_type@)->Some_0.spec_is_integer() ==> {
                &&& r == Ok::<usize, PlotError>(old(self).traces@.len() as usize)
                &&& final(self).traces@.len() == old(self).traces@.len() + 1
                &&& final(self).traces@.take(old(self).traces@.len() as int) == old(self).traces@
                &&& final(self).live(old(self).traces@.len() as int)
                &&& final(self).trace(old(self).traces@.len() as int).id@ == id@
                &&& final(self).trace(old(self).traces@.len() as int).x_type == tag_of_name(
                    x_type@,
                )->Some_0
                &&& final(self).segs(old(self).traces@.len() as int) == Seq::<SegView>::empty()
            },
    {
        let xt = match type_from_name(x_type) {
            Ok(t) => t,
            Err(e) => {
                return Err(e);
            },
        };
        if !xt.is_integer() {
            return Err(PlotError::UnknownType);
        }
        let handle = self.traces.len();
        let t = TraceData::new(id.to_owned(), xt);
        self.traces.push(Some(t));
        proof {
            assert(self.traces@.take(handle as int) =~= old(self).traces@);
            assert(views(self.trace(handle as int).segments@) =~= Seq::<SegView>::empty());
            assert forall|h: int|
                0 <= h < self.traces@.len() && self.traces@[h] is Some implies (
                #[trigger] self.traces@[h])->Some_0.wf() by {
                if h < handle {
                    assert(self.traces@[h] == old(self).traces@[h]);
                }
            }
        }
        Ok(handle)
    }

    /// Removes a trace.
    pub fn dispose_trace(&mut self, handle: usize) -> (r: Result<(), PlotError>)
        requires
            old(self).wf(),
        ensures
            final(self).wf(),
            !old(self).live(handle as int) ==> r == Err::<(), PlotError>(PlotError::UnknownHandle)
                && *final(self) == *old(self),
            old(self).live(handle as int) ==> r is Ok && final(self).traces@ == old(self).traces@.update(handle as int, None),
    {
        if handle >= self.traces.len() || self.traces[handle].is_none() {
            return Err(PlotError::UnknownHandle);
        }
        self.traces.set(handle, None);
        Ok(())
    }

    /// Read access to a trace.
    pub fn get_trace(&self, handle: usize) -> (r: Result<&TraceData, PlotError>)
        ensures
            !self.live(handle as int) ==> r == Err::<&TraceData, PlotError>(PlotError::UnknownHandle),
            self.live(handle as int) ==> r is Ok && *r->Ok_0 == self.trace(handle as int),
    {
        if handle >= self.traces.len() {
            return Err(PlotError::UnknownHandle);
        }
        match &self.traces[handle] {
            Some(t) => Ok(t),
            None => Err(PlotError::UnknownHandle),
        }
    }

    /// Merges `seg` into a trace (see `TraceData::push_segment`).
    pub fn push_segment(&mut self, handle: usize, seg: DataSegment) -> (r: Result<(), PlotError>)
        requires
            old(self).wf(),
            seg.wf(),
        ensures
            final(self).wf(),
            !old(self).live(handle as int) ==> r == Err::<(), PlotError>(PlotError::UnknownHandle)
                && *final(self) == *old(self),
            old(self).live(handle as int) ==> {
                &&& r is Ok
                &&& final(self).traces@.len() == old(self).traces@.len()
                &&& forall|g: int|
                    0 <= g < old(self).traces@.len() && g != handle ==> final(self).traces@[g]
                        == old(self).traces@[g]
                &&& final(self).live(handle as int)
                &&& final(self).segs(handle as int) == merged(old(self).segs(handle as int), seg@)
                &&& final(self).trace(handle as int).id == old(self).trace(handle as int).id
                &&& final(self).trace(handle as int).x_type == old(self).trace(
                    handle as int,
                ).x_type
            },
    {
        if handle >= self.traces.len() || self.traces[handle].is_none() {
            return Err(PlotError::UnknownHandle);
        }
        let slot = self.traces[handle].take();
        assert(old(self).traces@[handle as int] is Some);
        match slot {
            Some(mut t) => {
                assert(t.wf());
                t.push_segment(seg);
                self.traces.set(handle, Some(t));
                proof {
                    assert forall|h: int|
                        0 <= h < self.traces@.len() && self.traces@[h] is Some implies (
                        #[trigger] self.traces@[h])->Some_0.wf() by {
                        if h != handle {
                            assert(self.traces@[h] == old(self).traces@[h]);
                        }
                    }
                }
                Ok(())
            },
            None => Err(PlotError::UnknownHandle),
        }
    }

    /// The samples of a trace in `[from, to)`, from its complete segments
    /// in order.
    pub fn query_range(&self, handle: usize, from: i128, to: i128) -> (r: Result<
        Vec<Sample>,
        PlotError,
    >)
        requires
            self.wf(),
        ensures
            !self.live(handle as int) ==> r == Err::<Vec<Sample>, PlotError>(
                PlotError::UnknownHandle,
            ),
            self.live(handle as int) ==> r is Ok && r->Ok_0@ == points(
                self.segs(handle as int),
                from as int,
                to as int,
            ) && crate::segment::sorted(r->Ok_0@),
    {
        match self.get_trace(handle) {
            Ok(t) => {
                assert(self.traces@[handle as int] is Some);
                Ok(t.get_data_in(from, to))
            },
            Err(e) => Err(e),
        }
    }

    /// The samples of `query_range`, with x taken relative to `x_orig`.
    pub fn query_with_origin(&self, handle: usize, from: i128, to: i128, x_orig: i128) -> (r:
        Result<Vec<Sample>, PlotError>)
        requires
            self.wf(),
        ensures
            !self.live(handle as int) ==> r == Err::<Vec<Sample>, PlotError>(
                PlotError::UnknownHandle,
            ),
            self.live(handle as int) && !coord_ok(x_orig as int) ==> r == Err::<
                Vec<Sample>,
                PlotError,
            >(PlotError::InvalidRange),
            self.live(handle as int) && coord_ok(x_orig as int) ==> r is Ok && r->Ok_0@ == shift(
                points(self.segs(handle as int), from as int, to as int),
                x_orig as int,
            ),
    {
        match self.get_trace(handle) {
            Ok(t) => {
                assert(self.traces@[handle as int] is Some);
                if x_orig < -crate::segment::COORD_LIMIT || x_orig > crate::segment::COORD_LIMIT {
                    return Err(PlotError::InvalidRange);
                }
                Ok(t.get_data_with_origin(from, to, x_orig))
            },
            Err(e) => Err(e),
        }
    }
    /// The y of the first sample at exactly `x`, if the trace has one.
    pub fn data_at(&self, handle: usize, x: i128) -> (r: Result<Option<Value>, PlotError>)
        requires
            self.wf(),
            x < i128::MAX,
        ensures
            !self.live(handle as int) ==> r == Err::<Option<Value>, PlotError>(
                PlotError::UnknownHandle,
            ),
            self.live(handle as int) ==> r is Ok && r->Ok_0 == (if points(
                self.segs(handle as int),
                x as int,
                x + 1,
            ).len() > 0 {
                Some(points(self.segs(handle as int), x as int, x + 1)[0].y)
            } else {
                None
            }),
    {
        match self.query_range(handle, x, x + 1) {
            Ok(v) => {
                if v.len() > 0 {
                    Ok(Some(v[0].y))
                } else {
                    Ok(None)
                }
            },
            Err(e) => Err(e),
        }
    }

    /// Decodes an interleaved row buffer and pushes one segment per handle.
    /// Each row is `x || y_1 || ... || y_n`, little-endian, `n` the number
    /// of handles; the segment made for `handles[i]` holds column `i` over
    /// the range from the first x to one past the last. Nothing changes
    /// unless every check passes.
    pub fn bulkload_segments(&mut self, handles: &[usize], x_type: &str, y_type: &str, data: &[u8]) -> (r: Result<(), PlotError>)
        requires
            old(self).wf(),
        ensures
            final(self).wf(),
            old(self).bulk_error(handles@, x_type@, y_type@, data@) is Some ==> r == Err::<
                (),
                PlotError,
            >(old(self).bulk_error(handles@, x_type@, y_type@, data@)->Some_0) && *final(self)
                == *old(self),
            old(self).bulk_error(handles@, x_type@, y_type@, data@) is None ==> {
                &&& r is Ok
                &&& final(self).traces@.len() == old(self).traces@.len()
                &&& forall|g: int| #[trigger]
                    final(self).live(g) == old(self).live(g)
                &&& forall|g: int|
                    old(self).live(g) ==> #[trigger] final(self).segs(g) == loaded(
                        old(self).segs(g),
                        g,
                        handles@,
                        tag_of_name(x_type@)->Some_0,
                        tag_of_name(y_type@)->Some_0,
                        data@,
                        handles@.len() as int,
                    )
                &&& forall|g: int|
                    old(self).live(g) ==> #[trigger] final(self).trace(g).id == old(self).trace(g).id
                        && final(self).trace(g).x_type == old(self).trace(g).x_type
            },
    {
        let xt = match type_from_name(x_type) {
            Ok(t) => t,
            Err(e) => {
                return Err(e);
            },
        };
        let yt = match type_from_name(y_type) {
            Ok(t) => t,
            Err(e) => {
                return Err(e);
            },
        };
        if !xt.is_integer() {
            return Err(PlotError::UnknownType);
        }
        let n = handles.len();
        let mut k: usize = 0;
        while k < n
            invariant
                n == handles@.len(),
                k <= n,
                tag_of_name(x_type@) == Some(xt),
                tag_of_name(y_type@) == Some(yt),
                *self == *old(self),
                old(self).wf(),
                xt.spec_is_integer(),
                forall|j: int| 0 <= j < k ==> self.live(#[trigger] handles@[j] as int),
            decreases n - k,
        {
            if handles[k] >= self.traces.len() || self.traces[handles[k]].is_none() {
                assert(!self.live(handles@[k as int] as int));
                assert(old(self).bulk_error(handles@, x_type@, y_type@, data@) == Some(
                    PlotError::UnknownHandle,
                ));
                return Err(PlotError::UnknownHandle);
            }
            k += 1;
        }
        let xw = xt.width();
        let yw = yt.width();
        let len = data.len();
        assert((yw as u128) * (n as u128) <= 8 * 0x1_0000_0000_0000_0000) by (nonlinear_arith)
            requires
                yw <= 8,
                n < 0x1_0000_0000_0000_0000,
        ;
        let rw_wide: u128 = xw as u128 + (yw as u128) * (n as u128);
        assert(rw_wide == row_width(xt, yt, n as nat));
        if (len as u128) % rw_wide != 0 {
            return Err(PlotError::MalformedRow);
        }
        let rows = ((len as u128) / rw_wide) as usize;
        assert(rows == row_count(xt, yt, n as nat, len as nat));
        if rows == 0 {
            proof {
                assert forall|g: int| old(self).live(g) implies #[trigger] self.segs(g) == loaded(
                    old(self).segs(g),
                    g,
                    handles@,
                    xt,
                    yt,
                    data@,
                    n as int,
                ) by {
                    lemma_loaded_no_rows(old(self).segs(g), g, handles@, xt, yt, data@, n as int);
                }
            }
            return Ok(());
        }
        assert(rw_wide <= len) by {
            vstd::arithmetic::div_mod::lemma_fundamental_div_mod(len as int, rw_wide as int);
            assert(rw_wide * rows >= rw_wide) by (nonlinear_arith)
                requires
                    rows >= 1,
                    rw_wide > 0,
            ;
        }
        let rw = rw_wide as usize;
        proof {
            lemma_row_pos(0, rows as int, rw as int, len as int, 0, xw as int);
        }
        let mut prev = x_at(xt, data, 0);
        let mut r: usize = 1;
        while r < rows
            invariant
                1 <= r <= rows,
                tag_of_name(x_type@) == Some(xt),
                tag_of_name(y_type@) == Some(yt),
                len % rw == 0,
                *self == *old(self),
                old(self).wf(),
                forall|j: int| 0 <= j < n ==> self.live(#[trigger] handles@[j] as int),
                rows == row_count(xt, yt, n as nat, len as nat),
                rw == row_width(xt, yt, n as nat),
                len == data@.len(),
                xw == xt.spec_width(),
                n == handles@.len(),
                xt.spec_is_integer(),
                prev as int == row_x(xt, yt, n as nat, data@, r - 1),
                forall|a: int, b: int|
                    0 <= a < b < r ==> row_x(xt, yt, n as nat, data@, a) <= row_x(
                        xt,
                        yt,
                        n as nat,
                        data@,
                        b,
                    ),
            decreases rows - r,
        {
            proof {
                lemma_row_pos(r as int, rows as int, rw as int, len as int, 0, xw as int);
            }
            let x = x_at(xt, data, r * rw);
            assert(x as int == row_x(xt, yt, n as nat, data@, r as int));
            if x < prev {
                assert(row_x(xt, yt, n as nat, data@, r - 1) > row_x(
                    xt,
                    yt,
                    n as nat,
                    data@,
                    r as int,
                ));
                assert(!rows_sorted(xt, yt, n as nat, data@));
                return Err(PlotError::MalformedRow);
            }
            assert forall|a: int| 0 <= a < r implies row_x(xt, yt, n as nat, data@, a) <= row_x(
                xt,
                yt,
                n as nat,
                data@,
                r as int,
            ) by {
                if a < r - 1 {
                    assert(row_x(xt, yt, n as nat, data@, a) <= row_x(
                        xt,
                        yt,
                        n as nat,
                        data@,
                        r - 1,
                    ));
                }
            }
            prev = x;
            r += 1;
        }
        let mut i: usize = 0;
        while i < n
            invariant
                i <= n,
                tag_of_name(x_type@) == Some(xt),
                tag_of_name(y_type@) == Some(yt),
                len % rw == 0,
                n == handles@.len(),
                rows == row_count(xt, yt, n as nat, len as nat),
                rows >= 1,
                rw == row_width(xt, yt, n as nat),
                len == data@.len(),
                xw == xt.spec_width(),
                yw == yt.spec_width(),
                xt.spec_is_integer(),
                rows_sorted(xt, yt, n as nat, data@),
                forall|j: int| 0 <= j < n ==> old(self).live(#[trigger] handles@[j] as int),
                self.wf(),
                self.traces@.len() == old(self).traces@.len(),
                forall|g: int| #[trigger] self.live(g) == old(self).live(g),
                forall|g: int|
                    old(self).live(g) ==> #[trigger] self.segs(g) == loaded(
                        old(self).segs(g),
                        g,
                        handles@,
                        xt,
                        yt,
                        data@,
                        i as int,
                    ),
                forall|g: int| old(self).live(g) ==> #[trigger] self.trace(g).id == old(self).trace(g).id,
                forall|g: int|
                    old(self).live(g) ==> #[trigger] self.trace(g).x_type == old(self).trace(g).x_type,
            decreases n - i,
        {
            let seg = make_segment(xt, yt, data, n, rows, rw, i);
            let ghost sv = seg@;
            let h = handles[i];
            assert(old(self).live(h as int));
            let ghost mid = *self;
            let pushed = self.push_segment(h, seg);
            assert(pushed is Ok);
            assert(self.traces@.len() == mid.traces@.len());
            assert(self.live(h as int));
            assert forall|g: int| #[trigger] self.live(g) == old(self).live(g) by {
                assert(mid.live(g) == old(self).live(g));
                if 0 <= g < self.traces@.len() && g != h {
                    assert(self.traces@[g] == mid.traces@[g]);
                }
            }
            assert forall|g: int| old(self).live(g) implies #[trigger] self.segs(g) == loaded(
                old(self).segs(g),
                g,
                handles@,
                xt,
                yt,
                data@,
                i + 1,
            ) by {
                assert(mid.live(g));
                assert(mid.segs(g) == loaded(old(self).segs(g), g, handles@, xt, yt, data@, i as int));
                if g != h {
                    assert(self.traces@[g] == mid.traces@[g]);
                } else {
                    assert(sv == bulk_segment(xt, yt, handles@.len(), data@, i as int));
                }
            }
            assert forall|g: int| #![trigger self.trace(g)]
                old(self).live(g) implies self.trace(g).id == old(self).trace(g).id
                    && self.trace(g).x_type == old(self).trace(g).x_type by {
                assert(mid.live(g));
                assert(mid.trace(g).id == old(self).trace(g).id);
                assert(mid.trace(g).x_type == old(self).trace(g).x_type);
                if g != h {
                    assert(self.traces@[g] == mid.traces@[g]);
                }
            }
            i += 1;
        }
        Ok(())
    }
}

} // verus!
