//! Pixels of the host window.
use vstd::prelude::*;

verus! {

/// The 32-bit pixel of a window buffer that shows grey level `v`: the same
/// value in the red, green and blue bytes.
pub fn gray_to_rgb(v: u8) -> (r: u32)
    ensures
        r == v * 0x10101,
{
    (v as u32) * 0x10101
}

/// The grey image (row by row) that nearest-neighbour resampling of a grey
/// image of `width` x `height` pixels to `new_width` x `new_height` gives.
pub uninterp spec fn nearest_resized(
    pixels: Seq<u8>,
    width: nat,
    height: nat,
    new_width: nat,
    new_height: nat,
) -> Seq<u8>;

/// Resamples a grey image with `image::imageops::resize` and the nearest
/// filter. Trusted: the result is the resampled image, named
/// `nearest_resized` of the arguments; it has `new_width * new_height`
/// pixels, and when the size does not change it is the image itself (the
/// source copies the image in that case). Which source pixel each target
/// pixel takes is left to the name. The size bounds rule out the panics of
/// the buffers that `resize` allocates.
#[verifier::external_body]
fn resize_gray(pixels: &Vec<u8>, width: u32, height: u32, new_width: u32, new_height: u32) -> (r:
    Vec<u8>)
    requires
        pixels@.len() == width * height,
        4 * width * new_height <= usize::MAX,
        new_width * new_height <= usize::MAX,
    ensures
        r@ == nearest_resized(pixels@, width as nat, height as nat, new_width as nat, new_height as nat),
        r@.len() == new_width * new_height,
        width == new_width && height == new_height ==> r@ == pixels@,
{
    let img = image::ImageBuffer::<image::Luma<u8>, Vec<u8>>::from_raw(width, height, pixels.clone())
        .unwrap();
    image::imageops::resize(&img, new_width, new_height, image::imageops::FilterType::Nearest)
        .into_raw()
}

/// The window buffer that shows a grey image of `width` x `height` pixels
/// stretched, nearest neighbour, to a window of `win_width` x `win_height`.
pub fn window_buffer(gray: &Vec<u8>, width: u32, height: u32, win_width: u32, win_height: u32) -> (r:
    Vec<u32>)
    requires
        gray@.len() == width * height,
        4 * width * win_height <= usize::MAX,
        win_width * win_height <= usize::MAX,
    ensures
        r@ == nearest_resized(gray@, width as nat, height as nat, win_width as nat, win_height as nat)
            .map_values(|v: u8| (v * 0x10101) as u32),
        r@.len() == win_width * win_height,
        width == win_width && height == win_height ==> r@ == gray@.map_values(
            |v: u8| (v * 0x10101) as u32,
        ),
{
    let scaled = resize_gray(gray, width, height, win_width, win_height);
    let mut out: Vec<u32> = Vec::with_capacity(scaled.len());
    let mut i: usize = 0;
    while i < scaled.len()
        invariant
            0 <= i <= scaled@.len(),
            out@ == scaled@.take(i as int).map_values(|v: u8| (v * 0x10101) as u32),
        decreases scaled@.len() - i,
    {
        let p = gray_to_rgb(scaled[i]);
        assert(scaled@.take(i + 1).map_values(|v: u8| (v * 0x10101) as u32) =~= out@.push(p));
        out.push(p);
        i = i + 1;
    }
    assert(scaled@.take(scaled@.len() as int) =~= scaled@);
    out
}

} // verus!
