use mandelbrot::escape::escape_step;

/// The escape count of `c`: z <- z * z + c from z = 0, counted by the
/// library.
fn escape_time(c: (f64, f64), max_iter: u32) -> u32 {
    let mut z = (0.0f64, 0.0f64);
    let mut iter = 0;
    while let Some(next) = escape_step(iter, max_iter, z.0 * z.0 + z.1 * z.1 < 4.0) {
        iter = next;
        z = (z.0 * z.0 - z.1 * z.1 + c.0, 2.0 * z.0 * z.1 + c.1);
    }
    iter
}

/// The same loop written out, without the library.
fn plain_escape_time(c: (f64, f64), max_iter: u32) -> u32 {
    let mut z = (0.0f64, 0.0f64);
    let mut iter = 0;
    while z.0 * z.0 + z.1 * z.1 < 4.0 && iter < max_iter {
        iter += 1;
        z = (z.0 * z.0 - z.1 * z.1 + c.0, 2.0 * z.0 * z.1 + c.1);
    }
    iter
}

#[test]
fn step_goes_on_inside_and_below_the_cap() {
    assert_eq!(escape_step(0, 5, true), Some(1));
    assert_eq!(escape_step(4, 5, true), Some(5));
    assert_eq!(escape_step(0, u32::MAX, true), Some(1));
    assert_eq!(escape_step(u32::MAX - 1, u32::MAX, true), Some(u32::MAX));
}

#[test]
fn step_stops_outside() {
    assert_eq!(escape_step(0, 5, false), None);
    assert_eq!(escape_step(3, 5, false), None);
    assert_eq!(escape_step(5, 5, false), None);
}

#[test]
fn step_stops_at_the_cap() {
    assert_eq!(escape_step(5, 5, true), None);
    assert_eq!(escape_step(0, 0, true), None);
    assert_eq!(escape_step(u32::MAX, u32::MAX, true), None);
    assert_eq!(escape_step(6, 5, true), None);
}

#[test]
fn zero_never_escapes() {
    for max_iter in [0, 1, 2, 5, 100, 12345] {
        assert_eq!(escape_time((0.0, 0.0), max_iter), max_iter);
    }
}

#[test]
fn two_escapes_after_one_step() {
    for max_iter in [1, 2, 5, 100, 12345] {
        assert_eq!(escape_time((2.0, 0.0), max_iter), 1);
    }
    assert_eq!(escape_time((2.0, 0.0), 0), 0);
    // just inside the radius the second step is taken
    assert_eq!(escape_time((1.9999, 0.0), 100), 2);
}

#[test]
fn count_is_at_most_the_cap() {
    for c in [(0.0, 0.0), (-0.5, 0.0), (0.3, 0.5), (-2.0, -1.0), (2.0, 0.0), (-0.75, 0.1)] {
        for max_iter in 0..50 {
            assert!(escape_time(c, max_iter) <= max_iter);
        }
    }
}

#[test]
fn higher_cap_never_lowers_the_count() {
    for c in [(0.0, 0.0), (-0.5, 0.0), (0.3, 0.5), (-2.0, -1.0), (2.0, 0.0), (-0.75, 0.1), (0.26, 0.0)] {
        let mut low = 0;
        while low < 60 {
            let at_low = escape_time(c, low);
            let at_high = escape_time(c, low + 7);
            assert!(at_low <= at_high);
            if at_low < low {
                assert_eq!(at_high, at_low);
            }
            low += 1;
        }
    }
}

#[test]
fn known_counts() {
    // -2 - i lies outside the radius as soon as it is reached
    assert_eq!(escape_time((-2.0, -1.0), 5), 1);
    // -0.5 - i leaves after four steps
    assert_eq!(escape_time((-0.5, -1.0), 5), 4);
    assert_eq!(escape_time((-0.5, -1.0), 3), 3);
    // -2 stays on the radius: |z| = 2 counts as outside
    assert_eq!(escape_time((-2.0, 0.0), 5), 1);
    // -0.5 lies in the main cardioid
    assert_eq!(escape_time((-0.5, 0.0), 100), 100);
    // the orbit of 1 runs 0, 1, 2, and 2 lies on the radius
    assert_eq!(escape_time((1.0, 0.0), 100), 2);
}

#[test]
fn counted_as_the_plain_loop_counts() {
    let mut i = 0;
    while i < 40 {
        let mut j = 0;
        while j < 40 {
            let c = (-2.0 + 3.0 * i as f64 / 40.0, -1.0 + 2.0 * j as f64 / 40.0);
            for max_iter in [0, 1, 7, 50] {
                assert_eq!(escape_time(c, max_iter), plain_escape_time(c, max_iter));
            }
            j += 1;
        }
        i += 1;
    }
}
