use mandelbrot::color::{classify, Rgb};

const SET: Rgb = Rgb { red: 9, green: 8, blue: 7 };

#[test]
fn count_at_cap_gets_set_color() {
    assert_eq!(classify(100, 100, &SET), SET);
    assert_eq!(classify(1, 1, &SET), SET);
    assert_eq!(classify(0, 0, &SET), SET);
    assert_eq!(classify(u32::MAX, u32::MAX, &SET), SET);
}

#[test]
fn named_colors() {
    assert_eq!(Rgb::black(), Rgb { red: 0, green: 0, blue: 0 });
    assert_eq!(Rgb::white(), Rgb { red: 255, green: 255, blue: 255 });
    assert_eq!(Rgb::new_rgb(1, 2, 3), Rgb { red: 1, green: 2, blue: 3 });
}

#[test]
fn low_band_is_blue() {
    // 765 * 0 = 0
    assert_eq!(classify(0, 100, &SET), Rgb { red: 0, green: 0, blue: 0 });
    // 765 * 0.2 = 153
    assert_eq!(classify(1, 5, &SET), Rgb { red: 0, green: 0, blue: 153 });
    // 765 * 0.1 = 76.5, which goes up
    assert_eq!(classify(10, 100, &SET), Rgb { red: 0, green: 0, blue: 77 });
    // 765 * 0.33 = 252.45
    assert_eq!(classify(33, 100, &SET), Rgb { red: 0, green: 0, blue: 252 });
}

#[test]
fn low_band_ends_at_its_limit() {
    // 333 / 1000 is the limit itself and still low: 765 * 0.333 = 254.745
    assert_eq!(classify(333, 1000, &SET), Rgb { red: 0, green: 0, blue: 255 });
    // 334 / 1000 is above it: 765 * 0.001 = 0.765
    assert_eq!(classify(334, 1000, &SET), Rgb { red: 1, green: 1, blue: 254 });
}

#[test]
fn mid_band_runs_from_blue_to_yellow() {
    // 765 * (0.5 - 0.333) = 127.755
    assert_eq!(classify(50, 100, &SET), Rgb { red: 128, green: 128, blue: 127 });
    // 765 * (0.34 - 0.333) = 5.355
    assert_eq!(classify(34, 100, &SET), Rgb { red: 5, green: 5, blue: 250 });
    // 765 * (0.4 - 0.333) = 51.255
    assert_eq!(classify(2, 5, &SET), Rgb { red: 51, green: 51, blue: 204 });
}

#[test]
fn mid_band_ends_at_its_limit() {
    // 666 / 1000 is the limit itself and still in the middle:
    // 765 * 0.333 = 254.745
    assert_eq!(classify(666, 1000, &SET), Rgb { red: 255, green: 255, blue: 0 });
    // 667 / 1000 is above it: 255 * 0.667 = 170.085
    assert_eq!(classify(667, 1000, &SET), Rgb { red: 255, green: 85, blue: 0 });
}

#[test]
fn high_band_runs_from_yellow_to_red() {
    // 255 * 0.8 = 204
    assert_eq!(classify(4, 5, &SET), Rgb { red: 255, green: 51, blue: 0 });
    // 255 * 0.99 = 252.45
    assert_eq!(classify(99, 100, &SET), Rgb { red: 255, green: 3, blue: 0 });
    // 255 * 0.7 = 178.5, which goes up
    assert_eq!(classify(7, 10, &SET), Rgb { red: 255, green: 76, blue: 0 });
}

#[test]
fn largest_counts_do_not_overflow() {
    // the ratio is just below one: 255 * ratio rounds to 255
    assert_eq!(classify(u32::MAX - 1, u32::MAX, &SET), Rgb { red: 255, green: 0, blue: 0 });
    assert_eq!(classify(0, u32::MAX, &SET), Rgb { red: 0, green: 0, blue: 0 });
    // a third of the largest cap is just above the lower limit
    assert_eq!(classify(1431655765, u32::MAX, &SET), Rgb { red: 0, green: 0, blue: 255 });
    // two thirds of it are just above the upper limit: 255 * 0.6667 = 170
    assert_eq!(classify(2863311530, u32::MAX, &SET), Rgb { red: 255, green: 85, blue: 0 });
}

#[test]
fn set_color_is_used_only_at_the_cap() {
    let mut count: u32 = 0;
    while count < 50 {
        assert_ne!(classify(count, 50, &Rgb { red: 1, green: 2, blue: 3 }), Rgb {
            red: 1,
            green: 2,
            blue: 3,
        });
        count += 1;
    }
}
