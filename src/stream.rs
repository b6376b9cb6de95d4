//! The host's binary descriptions of bundle diffs: fixed 12-byte records
//! `handle:u32 | width:u32 | r g b | points_mode:u8` and 8-byte trace
//! handles, all big-endian.
use vstd::prelude::*;

use crate::bundle::{BundleEntry, Rgb};
use crate::error::PlotError;

verus! {

/// Bytes in one bundle entry record.
pub const RECORD_LEN: usize = 12;

/// Bytes in one trace handle of a delete list.
pub const HANDLE_LEN: usize = 8;

/// The unsigned number that `b` spells, most significant byte first.
pub open spec fn be_value(b: Seq<u8>) -> nat
    decreases b.len(),
{
    if b.len() == 0 {
        0
    } else {
        be_value(b.drop_last()) * 256 + b.last() as nat
    }
}

/// The entry that the record at `at` describes.
pub open spec fn record_at(b: Seq<u8>, at: int) -> BundleEntry {
    BundleEntry {
        handle: be_value(b.subrange(at, at + 4)) as usize,
        width: be_value(b.subrange(at + 4, at + 8)) as u32,
        color: Rgb { r: b[at + 8], g: b[at + 9], b: b[at + 10] },
        points_mode: b[at + 11] > 0,
    }
}

pub open spec fn records(b: Seq<u8>) -> Seq<BundleEntry> {
    Seq::new(b.len() / 12, |i: int| record_at(b, 12 * i))
}

pub open spec fn handles_of(b: Seq<u8>) -> Seq<usize> {
    Seq::new(b.len() / 8, |i: int| be_value(b.subrange(8 * i, 8 * i + 8)) as usize)
}

/// Every 8-byte handle fits a `usize`.
pub open spec fn handles_fit(b: Seq<u8>) -> bool {
    forall|i: int| 0 <= i < b.len() / 8 ==> #[trigger] be_value(b.subrange(8 * i, 8 * i + 8)) <= usize::MAX
}

proof fn lemma_be_bound(b: Seq<u8>)
    ensures
        be_value(b) < crate::types::pow256(b.len()),
    decreases b.len(),
{
    if b.len() > 0 {
        lemma_be_bound(b.drop_last());
        let r = be_value(b.drop_last());
        let p = crate::types::pow256(b.drop_last().len());
        assert(r * 256 + b.last() < 256 * p) by (nonlinear_arith)
            requires
                r < p,
                b.last() < 256,
        ;
    }
}

/// The big-endian number in `b[start..start + len]`.
fn read_be(b: &[u8], start: usize, len: usize) -> (r: u64)
    requires
        start + len <= b@.len(),
        len <= 8,
    ensures
        r == be_value(b@.subrange(start as int, start + len)),
{
    let total = b.len();
    let mut acc: u64 = 0;
    let mut i: usize = 0;
    while i < len
        invariant
            i <= len,
            len <= 8,
            start + len <= b@.len(),
            total == b@.len(),
            acc == be_value(b@.subrange(start as int, start + i)),
        decreases len - i,
    {
        proof {
            let s = b@.subrange(start as int, start + i + 1);
            assert(s.drop_last() =~= b@.subrange(start as int, start + i));
            lemma_be_bound(b@.subrange(start as int, start + i));
            crate::types::lemma_pow256_mono(i as nat, 7);
            crate::types::lemma_pow256_widths();
            assert(acc * 256 + 255 < 0x1_0000_0000_0000_0000) by (nonlinear_arith)
                requires
                    acc < 0x100_0000_0000_0000,
            ;
        }
        acc = acc * 256 + b[start + i] as u64;
        i += 1;
    }
    acc
}

/// Decodes a stream of bundle entry records.
pub fn parse_entries(stream: &[u8]) -> (r: Result<Vec<BundleEntry>, PlotError>)
    ensures
        stream@.len() % 12 != 0 ==> r == Err::<Vec<BundleEntry>, PlotError>(PlotError::MalformedRow),
        stream@.len() % 12 == 0 ==> r is Ok && r->Ok_0@ == records(stream@),
{
    let len = stream.len();
    if len % RECORD_LEN != 0 {
        return Err(PlotError::MalformedRow);
    }
    let n = len / RECORD_LEN;
    let mut out: Vec<BundleEntry> = Vec::new();
    let mut i: usize = 0;
    while i < n
        invariant
            i <= n,
            n == stream@.len() / 12,
            len == stream@.len(),
            out@ == records(stream@).take(i as int),
        decreases n - i,
    {
        let at = i * RECORD_LEN;
        assert(at + 12 <= len) by (nonlinear_arith)
            requires
                i < n,
                n == len / 12,
                at == i * 12,
        ;
        let handle = read_be(stream, at, 4);
        let width = read_be(stream, at + 4, 4);
        proof {
            lemma_be_bound(stream@.subrange(at as int, at + 4));
            lemma_be_bound(stream@.subrange(at + 4, at + 8));
            crate::types::lemma_pow256_mono(4, 4);
        }
        out.push(
            BundleEntry {
                handle: handle as usize,
                width: width as u32,
                color: Rgb { r: stream[at + 8], g: stream[at + 9], b: stream[at + 10] },
                points_mode: stream[at + 11] > 0,
            },
        );
        assert(out@ =~= records(stream@).take(i + 1));
        i += 1;
    }
    assert(out@ =~= records(stream@));
    Ok(out)
}

/// Decodes a stream of 8-byte trace handles.
pub fn parse_handles(stream: &[u8]) -> (r: Result<Vec<usize>, PlotError>)
    ensures
        !(stream@.len() % 8 == 0 && handles_fit(stream@)) ==> r == Err::<Vec<usize>, PlotError>(
            PlotError::MalformedRow,
        ),
        stream@.len() % 8 == 0 && handles_fit(stream@) ==> r is Ok && r->Ok_0@ == handles_of(
            stream@,
        ),
{
    let len = stream.len();
    if len % HANDLE_LEN != 0 {
        return Err(PlotError::MalformedRow);
    }
    let n = len / HANDLE_LEN;
    let mut out: Vec<usize> = Vec::new();
    let mut i: usize = 0;
    while i < n
        invariant
            i <= n,
            n == stream@.len() / 8,
            len == stream@.len(),
            out@ == handles_of(stream@).take(i as int),
            forall|k: int|
                0 <= k < i ==> #[trigger] be_value(stream@.subrange(8 * k, 8 * k + 8)) <= usize::MAX,
        decreases n - i,
    {
        let at = i * HANDLE_LEN;
        assert(at + 8 <= len) by (nonlinear_arith)
            requires
                i < n,
                n == len / 8,
                at == i * 8,
        ;
        let h = read_be(stream, at, 8);
        if h > usize::MAX as u64 {
            assert(at as int == 8 * i);
            assert(be_value(stream@.subrange(8 * i, 8 * i + 8)) > usize::MAX);
            assert(!handles_fit(stream@));
            return Err(PlotError::MalformedRow);
        }
        out.push(h as usize);
        assert(out@ =~= handles_of(stream@).take(i + 1));
        i += 1;
    }
    assert(out@ =~= handles_of(stream@));
    Ok(out)
}

} // verus!
