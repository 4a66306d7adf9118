//! Counting the "magical red" pixels of a decoded image.
//!
//! A pixel is magical red when its red channel exceeds the sum of its blue
//! and green channels.  Decoding the uploaded image into pixels happens
//! outside the library; the counting is verified here.

use vstd::prelude::*;

verus! {

/// Whether one `(red, green, blue)` pixel is magical red.
pub open spec fn is_magical_red(p: (u8, u8, u8)) -> bool {
    p.0 > p.1 + p.2
}

/// How many of the first `n` pixels are magical red.
pub open spec fn red_count(pixels: Seq<(u8, u8, u8)>, n: int) -> int
    decreases n,
{
    if n <= 0 {
        0
    } else {
        red_count(pixels, n - 1) + if is_magical_red(pixels[n - 1]) {
            1int
        } else {
            0int
        }
    }
}

proof fn lemma_red_count_bound(pixels: Seq<(u8, u8, u8)>, n: int)
    requires
        0 <= n <= pixels.len(),
    ensures
        0 <= red_count(pixels, n) <= n,
    decreases n,
{
    if n > 0 {
        lemma_red_count_bound(pixels, n - 1);
    }
}

/// Counts the pixels whose red channel exceeds blue plus green.
pub fn count_red_pixels(pixels: &Vec<(u8, u8, u8)>) -> (r: usize)
    ensures
        r == red_count(pixels@, pixels@.len() as int),
{
    let mut count: usize = 0;
    let mut i: usize = 0;
    while i < pixels.len()
        invariant
            i <= pixels@.len(),
            count == red_count(pixels@, i as int),
            count <= i,
        decreases pixels@.len() - i,
    {
        let (r, g, b) = pixels[i];
        if (r as u16) > (g as u16) + (b as u16) {
            count = count + 1;
        }
        i = i + 1;
    }
    count
}

} // verus!
