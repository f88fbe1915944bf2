//! Colours, and the gradient that turns an escape count into one.

use vstd::prelude::*;

verus! {

/// A colour with eight bits per channel.
#[derive(Clone, Copy, Debug, PartialEq, Eq, Structural)]
pub struct Rgb {
    pub red: u8,
    pub green: u8,
    pub blue: u8,
}

impl Rgb {
    pub fn new_rgb(red: u8, green: u8, blue: u8) -> (c: Rgb)
        ensures
            c == (Rgb { red, green, blue }),
    {
        Rgb { red, green, blue }
    }

    /// The conventional colour of points presumed inside the set.
    pub fn black() -> (c: Rgb)
        ensures
            c == (Rgb { red: 0, green: 0, blue: 0 }),
    {
        Rgb { red: 0, green: 0, blue: 0 }
    }

    pub fn white() -> (c: Rgb)
        ensures
            c == (Rgb { red: 255, green: 255, blue: 255 }),
    {
        Rgb { red: 255, green: 255, blue: 255 }
    }
}

/// The integer nearest to the fraction `num / den`; a fraction that lies
/// exactly between two integers goes to the larger.
pub open spec fn round_div(num: int, den: int) -> int
    recommends
        0 <= num,
        0 < den,
{
    (2 * num + den) / (2 * den)
}

/// Whether `count / cap` lies above the lower band limit, 0.333.
pub open spec fn above_low_band(count: int, cap: int) -> bool {
    1000 * count > 333 * cap
}

/// Whether `count / cap` lies above the upper band limit, 0.666.
pub open spec fn above_mid_band(count: int, cap: int) -> bool {
    1000 * count > 666 * cap
}

/// The gradient value of a count in the upper band: 255 times the ratio.
pub open spec fn high_gradient(count: int, cap: int) -> int {
    round_div(255 * count, cap)
}

/// The gradient value of a count in the middle band: 765 times the
/// distance of the ratio from 0.333.
pub open spec fn mid_gradient(count: int, cap: int) -> int {
    round_div(765000 * count - 254745 * cap, 1000 * cap)
}

/// The gradient value of a count in the lower band: 765 times the ratio.
pub open spec fn low_gradient(count: int, cap: int) -> int {
    round_div(765 * count, cap)
}

/// The colour of a point that left the escape radius after `count` of at
/// most `cap` steps. With the ratio `count / cap` rising from 0 to 1 the
/// colour runs from black over blue and yellow to red.
pub open spec fn gradient_color(count: int, cap: int) -> Rgb
    recommends
        0 <= count < cap,
{
    if above_mid_band(count, cap) {
        Rgb { red: 255, green: (255 - high_gradient(count, cap)) as u8, blue: 0 }
    } else if above_low_band(count, cap) {
        let g = mid_gradient(count, cap);
        Rgb { red: g as u8, green: g as u8, blue: (255 - g) as u8 }
    } else {
        Rgb { red: 0, green: 0, blue: low_gradient(count, cap) as u8 }
    }
}

/// The colour of a pixel whose orbit ran for `count` steps under the cap
/// `cap`: `set_color` where the cap was reached, the gradient elsewhere.
pub open spec fn color_of(count: u32, cap: u32, set_color: Rgb) -> Rgb
    recommends
        count <= cap,
{
    if count == cap {
        set_color
    } else {
        gradient_color(count as int, cap as int)
    }
}

/// `round_div` is the nearest integer: twice its distance from the
/// fraction is at most one, and a tie goes up.
pub proof fn lemma_round_div_nearest(num: int, den: int)
    requires
        0 <= num,
        0 < den,
    ensures
        2 * den * round_div(num, den) - den <= 2 * num < 2 * den * round_div(num, den) + den,
        0 <= round_div(num, den),
{
    let a = 2 * num + den;
    let b = 2 * den;
    vstd::arithmetic::div_mod::lemma_fundamental_div_mod(a, b);
    vstd::arithmetic::div_mod::lemma_mod_bound(a, b);
    vstd::arithmetic::div_mod::lemma_div_pos_is_pos(a, b);
}

/// A fraction below a whole number plus one half rounds to at most that
/// number.
pub proof fn lemma_round_div_upper(num: int, den: int, bound: int)
    requires
        0 <= num,
        0 < den,
        2 * num < 2 * (bound * den) + den,
    ensures
        round_div(num, den) <= bound,
{
    lemma_round_div_nearest(num, den);
    let r = round_div(num, den);
    assert(r <= bound) by (nonlinear_arith)
        requires
            0 < den,
            2 * den * r - den <= 2 * num,
            2 * num < 2 * (bound * den) + den,
    ;
}

/// Every channel that the gradient computes fits in eight bits.
pub proof fn lemma_gradient_in_range(count: int, cap: int)
    requires
        0 <= count < cap,
    ensures
        above_mid_band(count, cap) ==> 0 <= high_gradient(count, cap) <= 255,
        !above_mid_band(count, cap) && above_low_band(count, cap) ==> 0 <= mid_gradient(
            count,
            cap,
        ) <= 255,
        !above_low_band(count, cap) ==> 0 <= low_gradient(count, cap) <= 255,
{
    if above_mid_band(count, cap) {
        lemma_round_div_nearest(255 * count, cap);
        lemma_round_div_upper(255 * count, cap, 255);
    } else if above_low_band(count, cap) {
        lemma_round_div_nearest(765000 * count - 254745 * cap, 1000 * cap);
        assert(255 * (1000 * cap) == 255000 * cap);
        lemma_round_div_upper(765000 * count - 254745 * cap, 1000 * cap, 255);
    } else {
        lemma_round_div_nearest(765 * count, cap);
        lemma_round_div_upper(765 * count, cap, 255);
    }
}

/// Rounds `num / den` to the nearest integer, ties upward.
fn rounded_quotient(num: u64, den: u64) -> (r: u64)
    requires
        0 < den,
        2 * num + den <= u64::MAX,
        2 * den <= u64::MAX,
    ensures
        r == round_div(num as int, den as int),
{
    (2 * num + den) / (2 * den)
}

/// The colour of one pixel, from the number of steps its orbit ran and the
/// iteration cap.
///
/// A count equal to the cap marks a point presumed inside the set and gets
/// `set_color`. Any other count is shaded by its ratio to the cap in three
/// bands, with limits at 0.333 and 0.666:
///
/// * above 0.666: red 255, green 255 less the rounded 255-fold ratio, blue 0;
/// * above 0.333: red and green the rounded 765-fold excess of the ratio
///   over 0.333, blue 255 less that;
/// * else: red and green 0, blue the rounded 765-fold ratio.
///
/// The ratios and products are exact fractions; only the final rounding
/// loses anything.
pub fn classify(count: u32, cap: u32, set_color: &Rgb) -> (c: Rgb)
    requires
        count <= cap,
    ensures
        c == color_of(count, cap, *set_color),
{
    if count == cap {
        return *set_color;
    }
    let n: u64 = count as u64;
    let d: u64 = cap as u64;
    proof {
        lemma_gradient_in_range(n as int, d as int);
    }
    if 1000 * n > 666 * d {
        let g: u64 = rounded_quotient(255 * n, d);
        Rgb { red: 255, green: (255 - g) as u8, blue: 0 }
    } else if 1000 * n > 333 * d {
        let g: u64 = rounded_quotient(765000 * n - 254745 * d, 1000 * d);
        Rgb { red: g as u8, green: g as u8, blue: (255 - g) as u8 }
    } else {
        let g: u64 = rounded_quotient(765 * n, d);
        Rgb { red: 0, green: 0, blue: g as u8 }
    }
}

} // verus!
