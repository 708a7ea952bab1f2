use vstd::prelude::*;

verus! {

/// Pixel `p` of the RGBA image `rgba` is pixel `p` of the BGRA image `bgra`
/// with its blue and red bytes swapped.
pub open spec fn pixel_swizzled(bgra: Seq<u8>, rgba: Seq<u8>, p: int) -> bool {
    &&& rgba[4 * p] == bgra[4 * p + 2]
    &&& rgba[4 * p + 1] == bgra[4 * p + 1]
    &&& rgba[4 * p + 2] == bgra[4 * p]
    &&& rgba[4 * p + 3] == bgra[4 * p + 3]
}

/// The RGBA bytes of a frame dumped as BGRA: every whole pixel (four bytes)
/// with blue and red swapped, in order; trailing bytes of a partial pixel
/// are dropped.
pub fn bgra_to_rgba(bgra: &[u8]) -> (rgba: Vec<u8>)
    ensures
        rgba@.len() == 4 * (bgra@.len() / 4),
        forall|p: int| 0 <= p < bgra@.len() / 4 ==> #[trigger] pixel_swizzled(bgra@, rgba@, p),
{
    let len = bgra.len();
    let pixels = len / 4;
    let mut rgba: Vec<u8> = Vec::new();
    let mut p: usize = 0;
    while p < pixels
        invariant
            len == bgra@.len(),
            pixels == len / 4,
            p <= pixels,
            rgba@.len() == 4 * p,
            forall|q: int| 0 <= q < p ==> #[trigger] pixel_swizzled(bgra@, rgba@, q),
        decreases pixels - p,
    {
        let i = 4 * p;
        let ghost before = rgba@;
        rgba.push(bgra[i + 2]);
        rgba.push(bgra[i + 1]);
        rgba.push(bgra[i]);
        rgba.push(bgra[i + 3]);
        proof {
            assert forall|q: int| 0 <= q < p + 1 implies #[trigger] pixel_swizzled(bgra@, rgba@, q) by {
                if q < p {
                    assert(pixel_swizzled(bgra@, before, q));
                }
            }
        }
        p += 1;
    }
    rgba
}

} // verus!
