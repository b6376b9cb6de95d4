//! Bundles: persistent GPU vertex buffers, one per trace, over a fixed
//! window, with incremental add / delete / restyle.
//!
//! The graphics context lives with the host. The host uploads a trace's
//! vertices into a buffer and reports an [`Upload`] (or `None` when the
//! context could not give a buffer); the manager decides which buffers a
//! bundle keeps and hands back, with every operation, the buffers the host
//! must now release.
use vstd::prelude::*;

use crate::error::PlotError;
use crate::segment::coord_ok;
use crate::store::TraceStore;

verus! {

/// A colour as red, green and blue bytes.
#[derive(Debug, Clone, Copy, PartialEq, Eq, Structural)]
pub struct Rgb {
    pub r: u8,
    pub g: u8,
    pub b: u8,
}

/// What a bundle should show of one trace, and how.
#[derive(Debug, Clone, Copy, PartialEq, Eq, Structural)]
pub struct BundleEntry {
    pub handle: usize,
    pub width: u32,
    pub color: Rgb,
    pub points_mode: bool,
}

/// A buffer the host filled for an entry: its id and its vertex count.
#[derive(Debug, Clone, Copy, PartialEq, Eq, Structural)]
pub struct Upload {
    pub buffer: u64,
    pub points: usize,
}

/// A buffer a bundle holds, with the style it is drawn in.
#[derive(Debug, Clone, Copy, PartialEq, Eq, Structural)]
pub struct BufferEntry {
    pub handle: usize,
    pub buffer: u64,
    pub points: usize,
    pub width: u32,
    pub color: Rgb,
    pub points_mode: bool,
}

/// The entries of `s` for other traces than `h`.
pub open spec fn without(s: Seq<BufferEntry>, h: usize) -> Seq<BufferEntry>
    decreases s.len(),
{
    if s.len() == 0 {
        s
    } else {
        let r = without(s.drop_last(), h);
        if s.last().handle != h {
            r.push(s.last())
        } else {
            r
        }
    }
}

/// The buffers of `s` that belong to trace `h`.
pub open spec fn buffers_of(s: Seq<BufferEntry>, h: usize) -> Seq<u64>
    decreases s.len(),
{
    if s.len() == 0 {
        seq![]
    } else {
        let r = buffers_of(s.drop_last(), h);
        if s.last().handle == h {
            r.push(s.last().buffer)
        } else {
            r
        }
    }
}

/// The entries of `s` whose trace is not in `dels`.
pub open spec fn kept(s: Seq<BufferEntry>, dels: Seq<usize>) -> Seq<BufferEntry>
    decreases s.len(),
{
    if s.len() == 0 {
        s
    } else {
        let r = kept(s.drop_last(), dels);
        if !dels.contains(s.last().handle) {
            r.push(s.last())
        } else {
            r
        }
    }
}

/// The buffers of `s` whose trace is in `dels`.
pub open spec fn dropped(s: Seq<BufferEntry>, dels: Seq<usize>) -> Seq<u64>
    decreases s.len(),
{
    if s.len() == 0 {
        seq![]
    } else {
        let r = dropped(s.drop_last(), dels);
        if dels.contains(s.last().handle) {
            r.push(s.last().buffer)
        } else {
            r
        }
    }
}

/// Adds `e`, replacing the entry of the same trace if there is one.
pub open spec fn put(s: Seq<BufferEntry>, e: BufferEntry) -> Seq<BufferEntry> {
    without(s, e.handle).push(e)
}

pub open spec fn put_all(s: Seq<BufferEntry>, es: Seq<BufferEntry>) -> Seq<BufferEntry>
    decreases es.len(),
{
    if es.len() == 0 {
        s
    } else {
        put(put_all(s, es.drop_last()), es.last())
    }
}

/// The buffers that `put_all` replaces.
pub open spec fn put_all_released(s: Seq<BufferEntry>, es: Seq<BufferEntry>) -> Seq<u64>
    decreases es.len(),
{
    if es.len() == 0 {
        seq![]
    } else {
        put_all_released(s, es.drop_last()) + buffers_of(put_all(s, es.drop_last()), es.last().handle)
    }
}

/// The last entry of `m` for trace `h`.
pub open spec fn style_for(m: Seq<BundleEntry>, h: usize) -> Option<BundleEntry>
    decreases m.len(),
{
    if m.len() == 0 {
        None
    } else if m.last().handle == h {
        Some(m.last())
    } else {
        style_for(m.drop_last(), h)
    }
}

pub open spec fn restyled(e: BufferEntry, m: Seq<BundleEntry>) -> BufferEntry {
    match style_for(m, e.handle) {
        Some(s) => BufferEntry { width: s.width, color: s.color, points_mode: s.points_mode, ..e },
        None => e,
    }
}

/// Applies the style changes in `m` to the entries they name.
pub open spec fn restyle(s: Seq<BufferEntry>, m: Seq<BundleEntry>) -> Seq<BufferEntry> {
    Seq::new(s.len(), |i: int| restyled(s[i], m))
}

/// The entry that `e` becomes with the buffer `u`.
pub open spec fn built(e: BundleEntry, u: Upload) -> BufferEntry {
    BufferEntry {
        handle: e.handle,
        buffer: u.buffer,
        points: u.points,
        width: e.width,
        color: e.color,
        points_mode: e.points_mode,
    }
}

pub open spec fn all_built(es: Seq<BundleEntry>, us: Seq<Option<Upload>>) -> Seq<BufferEntry> {
    Seq::new(es.len(), |i: int| built(es[i], us[i]->Some_0))
}

/// The buffers among the uploads.
pub open spec fn uploaded(us: Seq<Option<Upload>>) -> Seq<u64>
    decreases us.len(),
{
    if us.len() == 0 {
        seq![]
    } else {
        match us.last() {
            Some(u) => uploaded(us.drop_last()).push(u.buffer),
            None => uploaded(us.drop_last()),
        }
    }
}

pub open spec fn all_uploaded(us: Seq<Option<Upload>>) -> bool {
    forall|i: int| 0 <= i < us.len() ==> #[trigger] us[i] is Some
}

/// The buffers after a diff: additions first, then deletions, then style
/// changes.
pub open spec fn rebundled(
    s: Seq<BufferEntry>,
    adds: Seq<BufferEntry>,
    dels: Seq<usize>,
    mods: Seq<BundleEntry>,
) -> Seq<BufferEntry> {
    restyle(kept(put_all(s, adds), dels), mods)
}

/// The buffers a diff releases: those replaced by additions, then those
/// deleted.
pub open spec fn rebundle_released(s: Seq<BufferEntry>, adds: Seq<BufferEntry>, dels: Seq<usize>) -> Seq<u64> {
    put_all_released(s, adds) + dropped(put_all(s, adds), dels)
}

/// No two entries belong to the same trace.
pub open spec fn unique(s: Seq<BufferEntry>) -> bool {
    forall|i: int, j: int| #![trigger s[i], s[j]] 0 <= i < j < s.len() ==> s[i].handle != s[j].handle
}

pub struct BundleView {
    pub from: int,
    pub to: int,
    pub buffers: Seq<BufferEntry>,
}

/// Buffers held over all live bundles.
pub open spec fn buffer_count(v: Seq<Option<BundleView>>) -> nat
    decreases v.len(),
{
    if v.len() == 0 {
        0
    } else {
        buffer_count(v.drop_last()) + match v.last() {
            Some(b) => b.buffers.len(),
            None => 0,
        }
    }
}

proof fn lemma_without(s: Seq<BufferEntry>, h: usize)
    ensures
        forall|k: int|
            0 <= k < without(s, h).len() ==> s.contains(#[trigger] without(s, h)[k]) && without(
                s,
                h,
            )[k].handle != h,
        unique(s) ==> unique(without(s, h)),
        without(s, h).len() + buffers_of(s, h).len() == s.len(),
    decreases s.len(),
{
    if s.len() > 0 {
        let d = s.drop_last();
        lemma_without(d, h);
        let r = without(d, h);
        assert forall|k: int| 0 <= k < r.len() implies s.contains(#[trigger] r[k]) by {
            let j = choose|j: int| 0 <= j < d.len() && d[j] == r[k];
            assert(s[j] == r[k]);
        }
        assert(s[s.len() - 1] == s.last());
        if unique(s) {
            assert(unique(d)) by {
                assert forall|i: int, j: int| #![trigger d[i], d[j]] 0 <= i < j < d.len() implies d[i].handle
                    != d[j].handle by {
                    assert(s[i] == d[i] && s[j] == d[j]);
                }
            }
            assert forall|k: int| 0 <= k < r.len() implies r[k].handle != s.last().handle by {
                let j = choose|j: int| 0 <= j < d.len() && d[j] == r[k];
                assert(s[j] == r[k]);
            }
        }
    }
}

proof fn lemma_kept(s: Seq<BufferEntry>, dels: Seq<usize>)
    ensures
        forall|k: int| 0 <= k < kept(s, dels).len() ==> s.contains(#[trigger] kept(s, dels)[k]),
        unique(s) ==> unique(kept(s, dels)),
        kept(s, dels).len() + dropped(s, dels).len() == s.len(),
    decreases s.len(),
{
    if s.len() > 0 {
        let d = s.drop_last();
        lemma_kept(d, dels);
        let r = kept(d, dels);
        assert forall|k: int| 0 <= k < r.len() implies s.contains(#[trigger] r[k]) by {
            let j = choose|j: int| 0 <= j < d.len() && d[j] == r[k];
            assert(s[j] == r[k]);
        }
        assert(s[s.len() - 1] == s.last());
        if unique(s) {
            assert(unique(d)) by {
                assert forall|i: int, j: int| #![trigger d[i], d[j]] 0 <= i < j < d.len() implies d[i].handle
                    != d[j].handle by {
                    assert(s[i] == d[i] && s[j] == d[j]);
                }
            }
            assert forall|k: int| 0 <= k < r.len() implies r[k].handle != s.last().handle by {
                let j = choose|j: int| 0 <= j < d.len() && d[j] == r[k];
                assert(s[j] == r[k]);
            }
        }
    }
}

proof fn lemma_put_all_unique(s: Seq<BufferEntry>, es: Seq<BufferEntry>)
    requires
        unique(s),
    ensures
        unique(put_all(s, es)),
    decreases es.len(),
{
    if es.len() > 0 {
        let p = put_all(s, es.drop_last());
        lemma_put_all_unique(s, es.drop_last());
        lemma_without(p, es.last().handle);
        let w = without(p, es.last().handle);
        let q = w.push(es.last());
        assert forall|i: int, j: int| #![trigger q[i], q[j]] 0 <= i < j < q.len() implies q[i].handle
            != q[j].handle by {
            if j < w.len() {
                assert(q[i] == w[i] && q[j] == w[j]);
            } else {
                assert(q[i] == w[i]);
            }
        }
    }
}

proof fn lemma_rebundled_unique(
    s: Seq<BufferEntry>,
    adds: Seq<BufferEntry>,
    dels: Seq<usize>,
    mods: Seq<BundleEntry>,
)
    requires
        unique(s),
    ensures
        unique(rebundled(s, adds, dels, mods)),
{
    lemma_put_all_unique(s, adds);
    lemma_kept(put_all(s, adds), dels);
    let k = kept(put_all(s, adds), dels);
    let r = rebundled(s, adds, dels, mods);
    assert forall|i: int, j: int| #![trigger r[i], r[j]] 0 <= i < j < r.len() implies r[i].handle
        != r[j].handle by {
        assert(r[i].handle == k[i].handle && r[j].handle == k[j].handle);
    }
}

proof fn lemma_count_push(v: Seq<Option<BundleView>>, b: BundleView)
    ensures
        buffer_count(v.push(Some(b))) == buffer_count(v) + b.buffers.len(),
{
    assert(v.push(Some(b)).drop_last() =~= v);
}

proof fn lemma_count_update(v: Seq<Option<BundleView>>, h: int, x: Option<BundleView>)
    requires
        0 <= h < v.len(),
    ensures
        buffer_count(v.update(h, x)) + match v[h] {
            Some(b) => b.buffers.len(),
            None => 0,
        } == buffer_count(v) + match x {
            Some(b) => b.buffers.len(),
            None => 0,
        },
    decreases v.len(),
{
    let u = v.update(h, x);
    if h == v.len() - 1 {
        assert(u.drop_last() =~= v.drop_last());
    } else {
        lemma_count_update(v.drop_last(), h, x);
        assert(u.drop_last() =~= v.drop_last().update(h, x));
    }
}

/// Bundle diff idempotence: in an empty bundle, adding one entry and then
/// deleting its trace leaves no buffer, releases exactly the one uploaded,
/// and brings the manager's buffer count back to where it was before the
/// bundle was made.
pub proof fn lemma_add_then_delete(
    v: Seq<Option<BundleView>>,
    from: int,
    to: int,
    e: BundleEntry,
    u: Upload,
)
    ensures
        ({
            let h = v.len() as int;
            let v1 = v.push(Some(BundleView { from, to, buffers: seq![] }));
            let s2 = rebundled(seq![], seq![built(e, u)], seq![], seq![]);
            let v2 = v1.update(h, Some(BundleView { from, to, buffers: s2 }));
            let s3 = rebundled(s2, seq![], seq![e.handle], seq![]);
            let v3 = v2.update(h, Some(BundleView { from, to, buffers: s3 }));
            &&& s2 == seq![built(e, u)]
            &&& s3 == Seq::<BufferEntry>::empty()
            &&& rebundle_released(s2, seq![], seq![e.handle]) == seq![u.buffer]
            &&& buffer_count(v3) == buffer_count(v)
        }),
{
    let h = v.len() as int;
    let b = built(e, u);
    let e0 = Seq::<BufferEntry>::empty();
    let v1 = v.push(Some(BundleView { from, to, buffers: e0 }));
    let adds = seq![b];
    assert(adds.drop_last() =~= Seq::<BufferEntry>::empty());
    assert(adds.last() == b);
    assert(put_all(e0, adds.drop_last()) == e0);
    assert(put_all(e0, adds) == put(e0, b));
    assert(without(e0, b.handle) == e0);
    assert(put(e0, b) =~= seq![b]);
    let k2 = kept(seq![b], seq![]);
    assert(seq![b].drop_last() =~= e0);
    assert(seq![b].last() == b);
    assert(kept(e0, seq![]) == e0);
    assert(!Seq::<usize>::empty().contains(b.handle));
    assert(k2 =~= seq![b]);
    let s2 = rebundled(e0, adds, seq![], seq![]);
    assert(style_for(Seq::<BundleEntry>::empty(), b.handle) is None);
    assert(s2 =~= seq![b]);
    let dels = seq![e.handle];
    assert(dels.contains(b.handle)) by {
        assert(dels[0] == b.handle);
    }
    assert(kept(e0, dels) == e0);
    assert(dropped(e0, dels) == Seq::<u64>::empty());
    let k3 = kept(seq![b], dels);
    assert(k3 =~= e0);
    let s3 = rebundled(s2, Seq::<BufferEntry>::empty(), dels, seq![]);
    assert(s3 =~= e0);
    assert(dropped(seq![b], dels) =~= seq![u.buffer]);
    assert(put_all_released(s2, Seq::<BufferEntry>::empty()) =~= Seq::<u64>::empty());
    assert(rebundle_released(s2, Seq::<BufferEntry>::empty(), dels) =~= seq![u.buffer]);
    lemma_count_push(v, BundleView { from, to, buffers: e0 });
    let v2 = v1.update(h, Some(BundleView { from, to, buffers: s2 }));
    lemma_count_update(v1, h, Some(BundleView { from, to, buffers: s2 }));
    lemma_count_update(v2, h, Some(BundleView { from, to, buffers: s3 }));
}

/// `v` with `e` put in (see `put`), and the buffer it replaced.
fn put_entry(v: Vec<BufferEntry>, e: BufferEntry) -> (r: (Vec<BufferEntry>, Vec<u64>))
    ensures
        r.0@ == put(v@, e),
        r.1@ == buffers_of(v@, e.handle),
{
    let mut out: Vec<BufferEntry> = Vec::new();
    let mut rel: Vec<u64> = Vec::new();
    let mut i: usize = 0;
    while i < v.len()
        invariant
            i <= v@.len(),
            out@ == without(v@.take(i as int), e.handle),
            rel@ == buffers_of(v@.take(i as int), e.handle),
        decreases v@.len() - i,
    {
        let x = v[i];
        assert(v@.take(i + 1).drop_last() =~= v@.take(i as int));
        assert(v@.take(i + 1).last() == x);
        if x.handle != e.handle {
            out.push(x);
        } else {
            rel.push(x.buffer);
        }
        i += 1;
    }
    assert(v@.take(v@.len() as int) =~= v@);
    out.push(e);
    (out, rel)
}

/// `v` with every entry of `es` put in, in order, and the buffers they
/// replaced.
fn put_entries(v: Vec<BufferEntry>, es: &Vec<BufferEntry>) -> (r: (Vec<BufferEntry>, Vec<u64>))
    ensures
        r.0@ == put_all(v@, es@),
        r.1@ == put_all_released(v@, es@),
{
    let ghost v0 = v@;
    let mut cur = v;
    let mut rel: Vec<u64> = Vec::new();
    let mut i: usize = 0;
    while i < es.len()
        invariant
            i <= es@.len(),
            cur@ == put_all(v0, es@.take(i as int)),
            rel@ == put_all_released(v0, es@.take(i as int)),
        decreases es@.len() - i,
    {
        assert(es@.take(i + 1).drop_last() =~= es@.take(i as int));
        assert(es@.take(i + 1).last() == es@[i as int]);
        let (next, mut gone) = put_entry(cur, es[i]);
        cur = next;
        rel.append(&mut gone);
        i += 1;
    }
    assert(es@.take(es@.len() as int) =~= es@);
    (cur, rel)
}

/// Whether `h` is among `hs`.
fn has_handle(hs: &[usize], h: usize) -> (r: bool)
    ensures
        r == hs@.contains(h),
{
    let mut i: usize = 0;
    while i < hs.len()
        invariant
            i <= hs@.len(),
            forall|k: int| 0 <= k < i ==> hs@[k] != h,
        decreases hs@.len() - i,
    {
        if hs[i] == h {
            assert(hs@[i as int] == h);
            return true;
        }
        i += 1;
    }
    false
}

/// `v` without the entries of the traces in `dels`, and their buffers.
fn delete_entries(v: Vec<BufferEntry>, dels: &[usize]) -> (r: (Vec<BufferEntry>, Vec<u64>))
    ensures
        r.0@ == kept(v@, dels@),
        r.1@ == dropped(v@, dels@),
{
    let mut out: Vec<BufferEntry> = Vec::new();
    let mut rel: Vec<u64> = Vec::new();
    let mut i: usize = 0;
    while i < v.len()
        invariant
            i <= v@.len(),
            out@ == kept(v@.take(i as int), dels@),
            rel@ == dropped(v@.take(i as int), dels@),
        decreases v@.len() - i,
    {
        let x = v[i];
        assert(v@.take(i + 1).drop_last() =~= v@.take(i as int));
        assert(v@.take(i + 1).last() == x);
        if !has_handle(dels, x.handle) {
            out.push(x);
        } else {
            rel.push(x.buffer);
        }
        i += 1;
    }
    assert(v@.take(v@.len() as int) =~= v@);
    (out, rel)
}

/// The last style change in `mods` for trace `h`.
fn find_style(mods: &[BundleEntry], h: usize) -> (r: Option<BundleEntry>)
    ensures
        r == style_for(mods@, h),
{
    let mut found: Option<BundleEntry> = None;
    let mut i: usize = 0;
    while i < mods.len()
        invariant
            i <= mods@.len(),
            found == style_for(mods@.take(i as int), h),
        decreases mods@.len() - i,
    {
        assert(mods@.take(i + 1).drop_last() =~= mods@.take(i as int));
        assert(mods@.take(i + 1).last() == mods@[i as int]);
        if mods[i].handle == h {
            found = Some(mods[i]);
        }
        i += 1;
    }
    assert(mods@.take(mods@.len() as int) =~= mods@);
    found
}

/// `v` with the style changes in `mods` applied; the vertex data stays.
fn restyle_entries(v: Vec<BufferEntry>, mods: &[BundleEntry]) -> (r: Vec<BufferEntry>)
    ensures
        r@ == restyle(v@, mods@),
{
    let mut out: Vec<BufferEntry> = Vec::new();
    let mut i: usize = 0;
    while i < v.len()
        invariant
            i <= v@.len(),
            out@ == restyle(v@, mods@).take(i as int),
        decreases v@.len() - i,
    {
        let x = v[i];
        let y = match find_style(mods, x.handle) {
            Some(m) => BufferEntry { width: m.width, color: m.color, points_mode: m.points_mode, ..x },
            None => x,
        };
        out.push(y);
        assert(out@ =~= restyle(v@, mods@).take(i + 1));
        i += 1;
    }
    assert(out@ =~= restyle(v@, mods@));
    out
}

/// The buffers among the uploads.
fn uploaded_buffers(us: &[Option<Upload>]) -> (r: Vec<u64>)
    ensures
        r@ == uploaded(us@),
{
    let mut out: Vec<u64> = Vec::new();
    let mut i: usize = 0;
    while i < us.len()
        invariant
            i <= us@.len(),
            out@ == uploaded(us@.take(i as int)),
        decreases us@.len() - i,
    {
        assert(us@.take(i + 1).drop_last() =~= us@.take(i as int));
        assert(us@.take(i + 1).last() == us@[i as int]);
        match us[i] {
            Some(u) => out.push(u.buffer),
            None => {},
        }
        i += 1;
    }
    assert(us@.take(us@.len() as int) =~= us@);
    out
}

/// The entries with their buffers, if every upload succeeded.
fn build_entries(es: &[BundleEntry], us: &[Option<Upload>]) -> (r: Option<Vec<BufferEntry>>)
    requires
        es@.len() == us@.len(),
    ensures
        all_uploaded(us@) ==> r is Some && r->Some_0@ == all_built(es@, us@),
        !all_uploaded(us@) ==> r is None,
{
    let mut out: Vec<BufferEntry> = Vec::new();
    let mut i: usize = 0;
    while i < es.len()
        invariant
            i <= es@.len(),
            es@.len() == us@.len(),
            forall|k: int| 0 <= k < i ==> #[trigger] us@[k] is Some,
            out@ == all_built(es@, us@).take(i as int),
        decreases es@.len() - i,
    {
        match us[i] {
            Some(u) => {
                out.push(built_exec(es[i], u));
                assert(out@ =~= all_built(es@, us@).take(i + 1));
            },
            None => {
                return None;
            },
        }
        i += 1;
    }
    assert(out@ =~= all_built(es@, us@));
    Some(out)
}

fn built_exec(e: BundleEntry, u: Upload) -> (r: BufferEntry)
    ensures
        r == built(e, u),
{
    BufferEntry {
        handle: e.handle,
        buffer: u.buffer,
        points: u.points,
        width: e.width,
        color: e.color,
        points_mode: e.points_mode,
    }
}

/// Whether every entry names a live trace.
fn entries_live(store: &TraceStore, es: &[BundleEntry]) -> (r: bool)
    ensures
        r == forall|i: int| 0 <= i < es@.len() ==> store.live(#[trigger] es@[i].handle as int),
{
    let mut i: usize = 0;
    while i < es.len()
        invariant
            i <= es@.len(),
            forall|k: int| 0 <= k < i ==> store.live(#[trigger] es@[k].handle as int),
        decreases es@.len() - i,
    {
        let h = es[i].handle;
        if h >= store.traces.len() || store.traces[h].is_none() {
            assert(!store.live(es@[i as int].handle as int));
            return false;
        }
        i += 1;
    }
    true
}

/// A bundle: its window `[from, to)` and its buffers.
pub struct BufferBundle {
    pub from: i128,
    pub to: i128,
    pub buffers: Vec<BufferEntry>,
}

impl View for BufferBundle {
    type V = BundleView;

    open spec fn view(&self) -> BundleView {
        BundleView { from: self.from as int, to: self.to as int, buffers: self.buffers@ }
    }
}

pub open spec fn bundle_view(o: Option<BufferBundle>) -> Option<BundleView> {
    match o {
        Some(b) => Some(b@),
        None => None,
    }
}

/// All bundles, indexed by handle; a disposed bundle leaves an empty slot.
pub struct BundleManager {
    pub bundles: Vec<Option<BufferBundle>>,
}

impl View for BundleManager {
    type V = Seq<Option<BundleView>>;

    open spec fn view(&self) -> Seq<Option<BundleView>> {
        self.bundles@.map_values(|o: Option<BufferBundle>| bundle_view(o))
    }
}

impl BundleManager {
    /// At most one buffer per trace in each bundle, and every window
    /// within the coordinate bound.
    pub open spec fn wf(&self) -> bool {
        forall|h: int|
            0 <= h < self@.len() && #[trigger] self@[h] is Some ==> unique(self@[h]->Some_0.buffers)
                && coord_ok(self@[h]->Some_0.from) && coord_ok(self@[h]->Some_0.to)
    }

    pub open spec fn live(&self, h: int) -> bool {
        0 <= h < self@.len() && self@[h] is Some
    }

    pub fn new() -> (r: BundleManager)
        ensures
            r.wf(),
            r@ == Seq::<Option<BundleView>>::empty(),
    {
        let r = BundleManager { bundles: Vec::new() };
        assert(r@ =~= Seq::<Option<BundleView>>::empty());
        r
    }

    /// Makes a bundle over `[from, to)` from entries whose vertex buffers
    /// the host has filled (`uploads[i]` for `entries[i]`). On failure the
    /// manager is unchanged and every uploaded buffer is handed back for
    /// release; on success the buffers replaced by a later entry of the
    /// same trace are handed back. An empty window is a bundle whose
    /// uploads hold no vertices; only a window end beyond the coordinate
    /// bound is refused.
    pub fn create_bundle(
        &mut self,
        store: &TraceStore,
        from: i128,
        to: i128,
        entries: &[BundleEntry],
        uploads: &[Option<Upload>],
    ) -> (r: (Result<usize, PlotError>, Vec<u64>))
        requires
            old(self).wf(),
            entries@.len() == uploads@.len(),
        ensures
            final(self).wf(),
            r.0 is Err ==> *final(self) == *old(self) && r.1@ == uploaded(uploads@),
            !(coord_ok(from as int) && coord_ok(to as int)) ==> r.0 == Err::<
                usize,
                PlotError,
            >(PlotError::InvalidRange),
            coord_ok(from as int) && coord_ok(to as int) && !(forall|i: int|
                0 <= i < entries@.len() ==> store.live(#[trigger] entries@[i].handle as int)) ==> r.0
                == Err::<usize, PlotError>(PlotError::UnknownHandle),
            coord_ok(from as int) && coord_ok(to as int) && (forall|i: int|
                0 <= i < entries@.len() ==> store.live(#[trigger] entries@[i].handle as int))
                && !all_uploaded(uploads@) ==> r.0 == Err::<usize, PlotError>(
                PlotError::ResourceExhausted,
            ),
            coord_ok(from as int) && coord_ok(to as int) && (forall|i: int|
                0 <= i < entries@.len() ==> store.live(#[trigger] entries@[i].handle as int))
                && all_uploaded(uploads@) ==> {
                &&& r.0 == Ok::<usize, PlotError>(old(self)@.len() as usize)
                &&& final(self)@ == old(self)@.push(
                    Some(
                        BundleView {
                            from: from as int,
                            to: to as int,
                            buffers: put_all(seq![], all_built(entries@, uploads@)),
                        },
                    ),
                )
                &&& r.1@ == put_all_released(seq![], all_built(entries@, uploads@))
            },
    {
        if !(-crate::segment::COORD_LIMIT <= from && from <= crate::segment::COORD_LIMIT
            && -crate::segment::COORD_LIMIT <= to && to <= crate::segment::COORD_LIMIT) {
            return (Err(PlotError::InvalidRange), uploaded_buffers(uploads));
        }
        if !entries_live(store, entries) {
            return (Err(PlotError::UnknownHandle), uploaded_buffers(uploads));
        }
        let adds = match build_entries(entries, uploads) {
            Some(v) => v,
            None => {
                return (Err(PlotError::ResourceExhausted), uploaded_buffers(uploads));
            },
        };
        let (buffers, released) = put_entries(Vec::new(), &adds);
        proof {
            lemma_put_all_unique(seq![], adds@);
        }
        let handle = self.bundles.len();
        self.bundles.push(Some(BufferBundle { from, to, buffers }));
        proof {
            assert(self@ =~= old(self)@.push(
                Some(BundleView { from: from as int, to: to as int, buffers: buffers@ }),
            ));
            assert forall|h: int| 0 <= h < self@.len() && #[trigger] self@[h] is Some implies unique(
                self@[h]->Some_0.buffers,
            ) && coord_ok(self@[h]->Some_0.from) && coord_ok(self@[h]->Some_0.to) by {
                if h < handle {
                    assert(self@[h] == old(self)@[h]);
                }
            }
        }
        (Ok(handle), released)
    }

    /// Drops a bundle and hands back all its buffers for release.
    pub fn dispose_bundle(&mut self, bundle: usize) -> (r: (Result<(), PlotError>, Vec<u64>))
        requires
            old(self).wf(),
        ensures
            final(self).wf(),
            !old(self).live(bundle as int) ==> r.0 == Err::<(), PlotError>(PlotError::UnknownBundle)
                && *final(self) == *old(self) && r.1@.len() == 0,
            old(self).live(bundle as int) ==> {
                &&& r.0 is Ok
                &&& final(self)@ == old(self)@.update(bundle as int, None)
                &&& r.1@ == old(self)@[bundle as int]->Some_0.buffers.map_values(
                    |e: BufferEntry| e.buffer,
                )
            },
    {
        if bundle >= self.bundles.len() || self.bundles[bundle].is_none() {
            return (Err(PlotError::UnknownBundle), Vec::new());
        }
        let slot = self.bundles[bundle].take();
        assert(self@ =~= old(self)@.update(bundle as int, None));
        let mut rel: Vec<u64> = Vec::new();
        match slot {
            Some(b) => {
                let mut i: usize = 0;
                while i < b.buffers.len()
                    invariant
                        i <= b.buffers@.len(),
                        rel@ == b.buffers@.map_values(|e: BufferEntry| e.buffer).take(i as int),
                    decreases b.buffers@.len() - i,
                {
                    rel.push(b.buffers[i].buffer);
                    assert(rel@ =~= b.buffers@.map_values(|e: BufferEntry| e.buffer).take(i + 1));
                    i += 1;
                }
                assert(rel@ =~= b.buffers@.map_values(|e: BufferEntry| e.buffer));
            },
            None => {},
        }
        proof {
            assert forall|h: int| 0 <= h < self@.len() && #[trigger] self@[h] is Some implies unique(
                self@[h]->Some_0.buffers,
            ) && coord_ok(self@[h]->Some_0.from) && coord_ok(self@[h]->Some_0.to) by {
                assert(self@[h] == old(self)@[h]);
            }
        }
        (Ok(()), rel)
    }

    /// Applies a diff to a bundle: `to_add` (with the host's uploads)
    /// first, then `to_del`, then the style changes of `to_mod`, which keep
    /// the vertex data. On failure nothing changes and every uploaded
    /// buffer is handed back; on success the replaced and deleted buffers
    /// are.
    pub fn rebundle(
        &mut self,
        store: &TraceStore,
        bundle: usize,
        to_add: &[BundleEntry],
        add_uploads: &[Option<Upload>],
        to_del: &[usize],
        to_mod: &[BundleEntry],
    ) -> (r: (Result<(), PlotError>, Vec<u64>))
        requires
            old(self).wf(),
            to_add@.len() == add_uploads@.len(),
        ensures
            final(self).wf(),
            r.0 is Err ==> *final(self) == *old(self) && r.1@ == uploaded(add_uploads@),
            !old(self).live(bundle as int) ==> r.0 == Err::<(), PlotError>(PlotError::UnknownBundle),
            old(self).live(bundle as int) && !(forall|i: int|
                0 <= i < to_add@.len() ==> store.live(#[trigger] to_add@[i].handle as int)) ==> r.0
                == Err::<(), PlotError>(PlotError::UnknownHandle),
            old(self).live(bundle as int) && (forall|i: int|
                0 <= i < to_add@.len() ==> store.live(#[trigger] to_add@[i].handle as int))
                && !all_uploaded(add_uploads@) ==> r.0 == Err::<(), PlotError>(
                PlotError::ResourceExhausted,
            ),
            old(self).live(bundle as int) && (forall|i: int|
                0 <= i < to_add@.len() ==> store.live(#[trigger] to_add@[i].handle as int))
                && all_uploaded(add_uploads@) ==> {
                let b = old(self)@[bundle as int]->Some_0;
                let adds = all_built(to_add@, add_uploads@);
                &&& r.0 is Ok
                &&& final(self)@ == old(self)@.update(
                    bundle as int,
                    Some(
                        BundleView {
                            from: b.from,
                            to: b.to,
                            buffers: rebundled(b.buffers, adds, to_del@, to_mod@),
                        },
                    ),
                )
                &&& r.1@ == rebundle_released(b.buffers, adds, to_del@)
            },
    {
        if bundle >= self.bundles.len() || self.bundles[bundle].is_none() {
            return (Err(PlotError::UnknownBundle), uploaded_buffers(add_uploads));
        }
        if !entries_live(store, to_add) {
            return (Err(PlotError::UnknownHandle), uploaded_buffers(add_uploads));
        }
        let adds = match build_entries(to_add, add_uploads) {
            Some(v) => v,
            None => {
                return (Err(PlotError::ResourceExhausted), uploaded_buffers(add_uploads));
            },
        };
        let slot = self.bundles[bundle].take();
        assert(old(self).bundles@[bundle as int] is Some);
        match slot {
            Some(b) => {
                let ghost bv = b@;
                assert(bv == old(self)@[bundle as int]->Some_0);
                assert(unique(bv.buffers));
                let (with_adds, mut rel) = put_entries(b.buffers, &adds);
                let (after_del, mut gone) = delete_entries(with_adds, to_del);
                let buffers = restyle_entries(after_del, to_mod);
                rel.append(&mut gone);
                proof {
                    lemma_rebundled_unique(bv.buffers, adds@, to_del@, to_mod@);
                }
                self.bundles.set(bundle, Some(BufferBundle { from: b.from, to: b.to, buffers }));
                proof {
                    assert(self@ =~= old(self)@.update(
                        bundle as int,
                        Some(
                            BundleView {
                                from: bv.from,
                                to: bv.to,
                                buffers: rebundled(bv.buffers, adds@, to_del@, to_mod@),
                            },
                        ),
                    ));
                    assert forall|h: int|
                        0 <= h < self@.len() && #[trigger] self@[h] is Some implies unique(
                        self@[h]->Some_0.buffers,
                    ) && coord_ok(self@[h]->Some_0.from) && coord_ok(self@[h]->Some_0.to) by {
                        if h != bundle {
                            assert(self@[h] == old(self)@[h]);
                        }
                    }
                }
                (Ok(()), rel)
            },
            None => (Err(PlotError::UnknownBundle), Vec::new()),
        }
    }

    /// Buffers held over all live bundles.
    pub fn live_buffers(&self) -> (r: u128)
        ensures
            r == buffer_count(self@),
    {
        let mut acc: u128 = 0;
        let mut i: usize = 0;
        while i < self.bundles.len()
            invariant
                i <= self.bundles@.len(),
                acc == buffer_count(self@.take(i as int)),
                acc <= i * 0x1_0000_0000_0000_0000,
            decreases self.bundles@.len() - i,
        {
            assert(self@.take(i + 1).drop_last() =~= self@.take(i as int));
            assert(self@.take(i + 1).last() == bundle_view(self.bundles@[i as int]));
            match &self.bundles[i] {
                Some(b) => {
                    acc = acc + b.buffers.len() as u128;
                },
                None => {},
            }
            i += 1;
        }
        assert(self@.take(self.bundles@.len() as int) =~= self@);
        acc
    }

    /// The buffers of a bundle, with the bundle's window start.
    pub fn get_bundle(&self, bundle: usize) -> (r: Result<&BufferBundle, PlotError>)
        ensures
            !self.live(bundle as int) ==> r == Err::<&BufferBundle, PlotError>(
                PlotError::UnknownBundle,
            ),
            self.live(bundle as int) ==> r is Ok && Some(r->Ok_0@) == self@[bundle as int],
    {
        if bundle >= self.bundles.len() {
            return Err(PlotError::UnknownBundle);
        }
        match &self.bundles[bundle] {
            Some(b) => Ok(b),
            None => Err(PlotError::UnknownBundle),
        }
    }
}

} // verus!
