use vstd::prelude::*;

verus! {

/// One terminal color, as red, green and blue channels.
#[derive(Clone, Copy, Debug, PartialEq, Eq, Structural)]
pub struct Rgb {
    pub r: u8,
    pub g: u8,
    pub b: u8,
}

/// Brightness of a cell of the given age. A fresh cell (age 0) is fully
/// dark; an older cell brightens linearly from a floor of 100 up to 228 as
/// its age approaches `max_age`.
pub open spec fn brightness(age: u16, max_age: u16) -> int
    recommends
        age <= max_age,
{
    if age == 0 {
        0
    } else {
        100 + (128 * age) / (max_age as int)
    }
}

pub proof fn lemma_brightness_bounds(age: u16, max_age: u16)
    requires
        age <= max_age,
    ensures
        0 <= brightness(age, max_age) <= 228,
{
    if age > 0 {
        assert(128 * age <= 128 * max_age) by {
            vstd::arithmetic::mul::lemma_mul_inequality(age as int, max_age as int, 128);
        }
        vstd::arithmetic::div_mod::lemma_div_is_ordered(
            128 * age,
            128 * (max_age as int),
            max_age as int,
        );
        vstd::arithmetic::div_mod::lemma_div_multiples_vanish(128, max_age as int);
        assert(0 <= (128 * age) / (max_age as int)) by {
            vstd::arithmetic::div_mod::lemma_div_is_ordered(0, 128 * age, max_age as int);
            vstd::arithmetic::div_mod::lemma_div_of0(max_age as int);
        }
    }
}

/// The fade color of a cell of the given age: grayscale, all three channels
/// holding the brightness.
pub fn fade_color(age: u16, max_age: u16) -> (c: Rgb)
    requires
        age <= max_age,
    ensures
        c.r == brightness(age, max_age),
        c.g == brightness(age, max_age),
        c.b == brightness(age, max_age),
{
    if age == 0 {
        Rgb { r: 0, g: 0, b: 0 }
    } else {
        let q: u32 = (128 * age as u32) / (max_age as u32);
        proof {
            lemma_brightness_bounds(age, max_age);
        }
        let v: u32 = 100 + q;
        let c: u8 = v as u8;
        Rgb { r: c, g: c, b: c }
    }
}

} // verus!
