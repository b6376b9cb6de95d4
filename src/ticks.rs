//! Axis ticks at "nice" steps of one, two or five times a power of ten.
//!
//! Ranges are given in whole units; tick values come back in tenths of a
//! unit, which holds every step the algorithm can pick exactly.
use vstd::prelude::*;

use crate::error::PlotError;

verus! {

/// One tick: its value is `value_tenths / 10`, and its position along the
/// queried span is `pos_num / pos_den`.
#[derive(Debug, Clone, Copy, PartialEq, Eq, Structural)]
pub struct RangeTick {
    pub value_tenths: i128,
    pub pos_num: i128,
    pub pos_den: i128,
}

/// The largest power of ten that is at most `w` (for `w >= 1`).
pub open spec fn pow10_below(w: int) -> int
    decreases w,
{
    if w < 10 {
        1
    } else {
        10 * pow10_below(w / 10)
    }
}

pub open spec fn step_mult(k: int) -> int {
    if k == 0 {
        1
    } else if k == 1 {
        2
    } else if k == 2 {
        5
    } else {
        10
    }
}

/// The `k`-th candidate step, in tenths: `{1, 2, 5, 10} * 10^order` with
/// `order = floor(log10(width)) - 1`.
pub open spec fn tick_step(width: int, k: int) -> int {
    step_mult(k) * pow10_below(width)
}

/// The largest multiple of `d` that is at most `s`.
pub open spec fn tick_base(s: int, d: int) -> int {
    (s / d) * d
}

/// A step fits when `ceil((w + s - base) / d) < 10`.
pub open spec fn step_fits(s: int, w: int, d: int) -> bool {
    w + s - tick_base(s, d) <= 9 * d
}

/// The smallest candidate that fits, or the largest if none does.
pub open spec fn chosen_step(start: int, width: int) -> int {
    let s = 10 * start;
    let w = 10 * width;
    if step_fits(s, w, tick_step(width, 0)) {
        tick_step(width, 0)
    } else if step_fits(s, w, tick_step(width, 1)) {
        tick_step(width, 1)
    } else if step_fits(s, w, tick_step(width, 2)) {
        tick_step(width, 2)
    } else {
        tick_step(width, 3)
    }
}

pub open spec fn tick_count(start: int, width: int) -> int {
    let d = chosen_step(start, width);
    (10 * width + 10 * start - tick_base(10 * start, d)) / d
}

/// The `i`-th tick (from zero): the `(i + 1)`-th multiple of the step
/// past the base.
pub open spec fn tick_at(start: int, width: int, i: int) -> RangeTick {
    let d = chosen_step(start, width);
    let v = tick_base(10 * start, d) + (i + 1) * d;
    RangeTick { value_tenths: v as i128, pos_num: (v - 10 * start) as i128, pos_den: (10 * width) as i128 }
}

pub open spec fn ticks(start: int, width: int) -> Seq<RangeTick> {
    Seq::new(tick_count(start, width) as nat, |i: int| tick_at(start, width, i))
}

proof fn lemma_pow10_below(w: int)
    requires
        w >= 1,
    ensures
        1 <= pow10_below(w) <= w < 10 * pow10_below(w),
        w >= 10 ==> pow10_below(w) >= 10,
    decreases w,
{
    if w >= 10 {
        lemma_pow10_below(w / 10);
    }
}

proof fn lemma_floor_div(s: int, d: int)
    requires
        d > 0,
    ensures
        tick_base(s, d) <= s < tick_base(s, d) + d,
{
    vstd::arithmetic::div_mod::lemma_fundamental_div_mod(s, d);
    assert((s / d) * d == d * (s / d)) by (nonlinear_arith);
}

/// `s / d`, rounded down.
fn floor_div(s: i128, d: i128) -> (q: i128)
    requires
        d > 0,
        -0x1000_0000_0000_0000_0000 <= s <= 0x1000_0000_0000_0000_0000,
    ensures
        q == s / d,
{
    if s >= 0 {
        let a = s as u128;
        let qa = a / (d as u128);
        let ra = a % (d as u128);
        proof {
            vstd::arithmetic::div_mod::lemma_fundamental_div_mod(a as int, d as int);
            vstd::arithmetic::div_mod::lemma_fundamental_div_mod_converse(
                s as int,
                d as int,
                qa as int,
                ra as int,
            );
        }
        qa as i128
    } else {
        let a = (-s) as u128;
        let qa = a / (d as u128);
        let ra = a % (d as u128);
        proof {
            vstd::arithmetic::div_mod::lemma_fundamental_div_mod(a as int, d as int);
            assert(qa * d <= a) by (nonlinear_arith)
                requires
                    a == d * qa + ra,
                    ra >= 0,
            ;
        }
        if ra == 0 {
            proof {
                assert(s == (-qa) * d + 0) by (nonlinear_arith)
                    requires
                        s == -a,
                        a == d * qa + ra,
                        ra == 0,
                ;
                vstd::arithmetic::div_mod::lemma_fundamental_div_mod_converse(
                    s as int,
                    d as int,
                    -qa,
                    0,
                );
            }
            -(qa as i128)
        } else {
            proof {
                assert(s == (-qa - 1) * d + (d - ra)) by (nonlinear_arith)
                    requires
                        s == -a,
                        a == d * qa + ra,
                ;
                vstd::arithmetic::div_mod::lemma_fundamental_div_mod_converse(
                    s as int,
                    d as int,
                    -qa - 1,
                    d - ra,
                );
            }
            -(qa as i128) - 1
        }
    }
}

/// Ticks over `[start, start + width]`. Between one and ten of them, at
/// strictly increasing positions in `[0, 1]`.
pub fn calc_ticks(start: i64, width: i64) -> (r: Result<Vec<RangeTick>, PlotError>)
    ensures
        width <= 0 ==> r == Err::<Vec<RangeTick>, PlotError>(PlotError::InvalidRange),
        width > 0 ==> r is Ok && r->Ok_0@ == ticks(start as int, width as int),
        width > 0 ==> {
            let t = ticks(start as int, width as int);
            &&& 1 <= t.len() <= 10
            &&& forall|i: int| #![trigger t[i]] 0 <= i < t.len() ==> 0 < t[i].pos_num <= t[i].pos_den
            &&& forall|i: int| #![trigger t[i]] 0 <= i < t.len() ==> t[i].pos_den == 10 * width
            &&& forall|i: int, j: int| #![trigger t[i], t[j]]
                0 <= i < j < t.len() ==> t[i].pos_num < t[j].pos_num
        },
{
    if width <= 0 {
        return Err(PlotError::InvalidRange);
    }
    let s: i128 = 10 * start as i128;
    let w: i128 = 10 * width as i128;
    let mut q: i128 = width as i128;
    let mut p: i128 = 1;
    proof {
        lemma_pow10_below(width as int);
    }
    while q >= 10
        invariant
            q >= 1,
            p >= 1,
            width >= 1,
            pow10_below(width as int) == p * pow10_below(q as int),
            pow10_below(width as int) <= width,
        decreases q,
    {
        proof {
            lemma_pow10_below(q as int);
            lemma_pow10_below(q / 10);
            assert(p * 10 <= p * pow10_below(q as int)) by (nonlinear_arith)
                requires
                    p >= 1,
                    pow10_below(q as int) >= 10,
            ;
            assert(p * pow10_below(q as int) == (p * 10) * pow10_below(q / 10)) by (nonlinear_arith)
                requires
                    pow10_below(q as int) == 10 * pow10_below(q / 10),
            ;
        }
        q = q / 10;
        p = p * 10;
    }
    assert(pow10_below(width as int) == p);
    let ghost st = start as int;
    let ghost wd = width as int;
    let mults: [i128; 4] = [1, 2, 5, 10];
    let mut k: usize = 0;
    let mut d: i128 = p;
    proof {
        lemma_floor_div(s as int, d as int);
    }
    let mut y0: i128 = floor_div(s, d) * d;
    while k < 3 && w + s - y0 > 9 * d
        invariant
            k <= 3,
            1 <= wd < 0x8000_0000_0000_0000,
            p == pow10_below(wd),
            1 <= p <= wd,
            s == 10 * st,
            w == 10 * wd,
            -0x8000_0000_0000_0000 <= st < 0x8000_0000_0000_0000,
            mults@ == seq![1i128, 2, 5, 10],
            d == tick_step(wd, k as int),
            1 <= d <= 10 * wd,
            y0 == tick_base(s as int, d as int),
            y0 <= s < y0 + d,
            forall|j: int| 0 <= j < k ==> !step_fits(s as int, w as int, #[trigger] tick_step(wd, j)),
        decreases 3 - k,
    {
        k += 1;
        assert(mults@[k as int] == step_mult(k as int)) by {
            assert(k == 1 || k == 2 || k == 3);
        }
        d = mults[k] * p;
        proof {
            lemma_floor_div(s as int, d as int);
        }
        y0 = floor_div(s, d) * d;
    }
    assert(d == chosen_step(st, wd)) by {
        if k == 0 {
        } else if k == 1 {
            assert(!step_fits(s as int, w as int, tick_step(wd, 0)));
        } else if k == 2 {
            assert(!step_fits(s as int, w as int, tick_step(wd, 0)));
            assert(!step_fits(s as int, w as int, tick_step(wd, 1)));
        } else {
            assert(!step_fits(s as int, w as int, tick_step(wd, 0)));
            assert(!step_fits(s as int, w as int, tick_step(wd, 1)));
            assert(!step_fits(s as int, w as int, tick_step(wd, 2)));
        }
    }
    let n = (w + s - y0) / d;
    proof {
        lemma_floor_div(s as int, d as int);
        lemma_tick_count(st, wd);
    }
    let mut out: Vec<RangeTick> = Vec::new();
    let mut i: i128 = 0;
    while i < n
        invariant
            0 <= i <= n,
            n == tick_count(st, wd),
            1 <= n <= 10,
            d == chosen_step(st, wd),
            1 <= d <= 10 * wd,
            y0 == tick_base(s as int, d as int),
            s <= y0 + d,
            y0 <= s,
            s == 10 * st,
            w == 10 * wd,
            1 <= wd < 0x8000_0000_0000_0000,
            -0x8000_0000_0000_0000 <= st < 0x8000_0000_0000_0000,
            out@ == ticks(st, wd).take(i as int),
        decreases n - i,
    {
        assert((i + 1) * d <= 10 * d) by (nonlinear_arith)
            requires
                i + 1 <= 10,
                d >= 1,
        ;
        let v = y0 + (i + 1) * d;
        out.push(RangeTick { value_tenths: v, pos_num: v - s, pos_den: w });
        assert(out@ =~= ticks(st, wd).take(i + 1));
        i += 1;
    }
    assert(out@ =~= ticks(st, wd));
    proof {
        lemma_tick_bound(start, width);
    }
    Ok(out)
}

/// The number of ticks lies between one and ten, and every tick lies
/// inside the span.
proof fn lemma_tick_count(start: int, width: int)
    requires
        width >= 1,
    ensures
        1 <= tick_count(start, width) <= 10,
        1 <= chosen_step(start, width) <= 10 * width,
        10 * start < tick_base(10 * start, chosen_step(start, width)) + chosen_step(start, width),
        tick_base(10 * start, chosen_step(start, width)) + tick_count(start, width) * chosen_step(
            start,
            width,
        ) <= 10 * width + 10 * start,
{
    let s = 10 * start;
    let w = 10 * width;
    let p = pow10_below(width);
    lemma_pow10_below(width);
    let d = chosen_step(start, width);
    assert(d == p || d == 2 * p || d == 5 * p || d == 10 * p);
    lemma_floor_div(s, d);
    let y0 = tick_base(s, d);
    let span = w + s - y0;
    vstd::arithmetic::div_mod::lemma_fundamental_div_mod(span, d);
    let c = span / d;
    assert(d <= w);
    assert(span >= d);
    if step_fits(s, w, d) {
        assert(span <= 9 * d);
    } else {
        assert(d == 10 * p);
        assert(span < 11 * d);
    }
    assert(1 <= c <= 10) by (nonlinear_arith)
        requires
            span == d * c + span % d,
            0 <= span % d < d,
            d <= span < 11 * d,
    ;
    assert(c * d <= span) by (nonlinear_arith)
        requires
            span == d * c + span % d,
            0 <= span % d,
    ;
}

/// Tick bound: for every start and positive width there are between one
/// and ten ticks, at strictly increasing positions within `[0, 1]`.
pub proof fn lemma_tick_bound(start: i64, width: i64)
    requires
        width > 0,
    ensures
        ({
            let t = ticks(start as int, width as int);
            &&& 1 <= t.len() <= 10
            &&& forall|i: int| #![trigger t[i]] 0 <= i < t.len() ==> 0 < t[i].pos_num <= t[i].pos_den
            &&& forall|i: int| #![trigger t[i]] 0 <= i < t.len() ==> t[i].pos_den == 10 * width
            &&& forall|i: int, j: int| #![trigger t[i], t[j]]
                0 <= i < j < t.len() ==> t[i].pos_num < t[j].pos_num
        }),
{
    let st = start as int;
    let wd = width as int;
    lemma_tick_count(st, wd);
    let t = ticks(st, wd);
    let d = chosen_step(st, wd);
    let y0 = tick_base(10 * st, d);
    let n = tick_count(st, wd);
    assert forall|i: int| #![trigger t[i]] 0 <= i < t.len() implies 0 < t[i].pos_num <= t[i].pos_den
        && t[i].pos_den == 10 * width by {
        assert((i + 1) * d <= n * d) by (nonlinear_arith)
            requires
                i + 1 <= n,
                d >= 1,
        ;
        assert((i + 1) * d >= d) by (nonlinear_arith)
            requires
                i >= 0,
                d >= 1,
        ;
    }
    assert forall|i: int, j: int| #![trigger t[i], t[j]] 0 <= i < j < t.len() implies t[i].pos_num
        < t[j].pos_num by {
        assert((i + 1) * d < (j + 1) * d) by (nonlinear_arith)
            requires
                i < j,
                d >= 1,
        ;
        assert((j + 1) * d <= n * d) by (nonlinear_arith)
            requires
                j + 1 <= n,
                d >= 1,
        ;
    }
}

} // verus!
