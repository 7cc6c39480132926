//! The blood canvas: a square RGBA image, four bytes per pixel, whose
//! alpha channel grows where something dies.
use vstd::prelude::*;

verus! {

/// The blood canvas, `size` pixels wide and high.
pub struct BloodState {
    pub size: usize,
}

/// Alpha after one splash: 128 more, capped at 255.
pub open spec fn splashed(alpha: u8) -> u8 {
    if alpha + 128 > 255 {
        255
    } else {
        (alpha + 128) as u8
    }
}

/// Byte index of the alpha channel of pixel `(x, y)` on a canvas `size`
/// pixels wide.
pub open spec fn alpha_index(size: int, x: int, y: int) -> int {
    (x + y * size) * 4 + 3
}

impl BloodState {
    /// Adds a splash of blood at pixel `(x, y)`: the alpha byte of that
    /// pixel grows by 128, capped at 255, when it lies inside `data`;
    /// otherwise nothing changes.
    pub fn add_blood(&self, x: usize, y: usize, data: &mut Vec<u8>)
        requires
            alpha_index(self.size as int, x as int, y as int) <= usize::MAX,
        ensures
            ({
                let index = alpha_index(self.size as int, x as int, y as int);
                if 0 < index < old(data).len() {
                    final(data)@ == old(data)@.update(index, splashed(old(data)@[index]))
                } else {
                    final(data)@ == old(data)@
                }
            }),
            final(data)@.len() == old(data)@.len(),
            // only the alpha byte of the pixel changes: it grows by 128, up to 255
            forall|i: int|
                0 <= i < old(data)@.len() ==> #[trigger] final(data)@[i] as int == if i
                    == alpha_index(self.size as int, x as int, y as int) {
                    if old(data)@[i] + 128 <= 255 {
                        old(data)@[i] + 128
                    } else {
                        255
                    }
                } else {
                    old(data)@[i] as int
                },
    {
        proof {
            assert(0 <= y * self.size) by (nonlinear_arith);
        }
        // Convert 2d to 1d index and multiply by the stride of image data
        let index: usize = (x + y * self.size) * 4 + 3;
        // increase opacity
        if index > 0 && index < data.len() {
            let value = data[index].saturating_add(128);
            data.set(index, value);
        }
    }
}

/// Sets the red byte of every pixel of an RGBA buffer to 255; the last
/// byte of the buffer is left as it is.
pub fn fill_red_channel(data: &mut Vec<u8>)
    ensures
        final(data)@.len() == old(data)@.len(),
        forall|i: int|
            0 <= i < old(data)@.len() ==> #[trigger] final(data)@[i] == if i % 4 == 0 && i
                < old(data)@.len() - 1 {
                255u8
            } else {
                old(data)@[i]
            },
{
    let len = data.len();
    let mut x: usize = 0;
    while x < len
        invariant
            len == old(data)@.len(),
            data@.len() == len,
            x <= len,
            forall|i: int|
                0 <= i < len ==> #[trigger] data@[i] == if i < x && i % 4 == 0 && i < len - 1 {
                    255u8
                } else {
                    old(data)@[i]
                },
        decreases len - x,
    {
        if x % 4 == 0 {
            if x < len - 1 {
                data.set(x, 255);
            }
        }
        x = x + 1;
    }
}

} // verus!
