use plotting::error::PlotError;
use plotting::ticks::{calc_ticks, RangeTick};

fn values(t: &[RangeTick]) -> Vec<i128> {
    t.iter().map(|t| t.value_tenths).collect()
}

#[test]
fn ticks_for_zero_to_hundred() {
    let t = calc_ticks(0, 100).unwrap();
    assert_eq!(values(&t), vec![200, 400, 600, 800, 1000]);
    let pos: Vec<(i128, i128)> = t.iter().map(|t| (t.pos_num, t.pos_den)).collect();
    assert_eq!(pos, vec![(200, 1000), (400, 1000), (600, 1000), (800, 1000), (1000, 1000)]);
}

#[test]
fn ticks_over_a_negative_start_use_tenths() {
    let t = calc_ticks(-5, 10).unwrap();
    assert_eq!(values(&t), vec![-40, -20, 0, 20, 40]);
    let pos: Vec<i128> = t.iter().map(|t| t.pos_num).collect();
    assert_eq!(pos, vec![10, 30, 50, 70, 90]);
}

#[test]
fn ticks_fall_back_to_the_largest_step() {
    let t = calc_ticks(5, 99).unwrap();
    assert_eq!(values(&t), vec![100, 200, 300, 400, 500, 600, 700, 800, 900, 1000]);
}

#[test]
fn ticks_of_a_unit_width() {
    let t = calc_ticks(3, 1).unwrap();
    assert_eq!(values(&t), vec![32, 34, 36, 38, 40]);
}

#[test]
fn degenerate_width_is_an_error() {
    assert_eq!(calc_ticks(0, 0), Err(PlotError::InvalidRange));
    assert_eq!(calc_ticks(10, -3), Err(PlotError::InvalidRange));
}

#[test]
fn tick_bound_on_many_inputs() {
    let starts = [i64::MIN, -1_000_000_007, -99, -1, 0, 1, 7, 123_456, i64::MAX / 2];
    let widths = [1, 2, 9, 10, 11, 99, 100, 101, 999, 12_345, 1_000_000, i64::MAX / 4];
    for &s in &starts {
        for &w in &widths {
            let t = calc_ticks(s, w).unwrap();
            assert!(1 <= t.len() && t.len() <= 10, "{} {} {}", s, w, t.len());
            for k in &t {
                assert!(0 <= k.pos_num && k.pos_num <= k.pos_den);
                assert_eq!(k.pos_den, 10 * w as i128);
            }
            for p in t.windows(2) {
                assert!(p[0].pos_num < p[1].pos_num);
            }
        }
    }
}
