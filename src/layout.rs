use vstd::prelude::*;
use vstd::string::*;

use crate::embed::{ceil_div, first_digit, is_digit, lemma_ceil_div};

verus! {

/// The floor of the square root of `n`, by bisection.
fn isqrt(n: u64) -> (r: u64)
    ensures
        r * r <= n < (r + 1) * (r + 1),
{
    let mut lo: u64 = 0;
    let mut hi: u64 = 0x1_0000_0000;
    assert(n < hi * hi);
    while hi - lo > 1
        invariant
            lo < hi <= 0x1_0000_0000,
            lo * lo <= n,
            n < hi * hi,
        decreases hi - lo,
    {
        let mid = lo + (hi - lo) / 2;
        assert(mid * mid < 0x1_0000_0000 * 0x1_0000_0000) by (nonlinear_arith)
            requires
                mid < 0x1_0000_0000,
        ;
        if mid * mid <= n {
            lo = mid;
        } else {
            hi = mid;
        }
    }
    assert(hi == lo + 1);
    lo
}

/// Picks near-square image dimensions for `size` bytes of data at
/// `bits_per_pixel` bits per pixel: the width is the floor of the square root
/// of the pixel count, the height the rows of that width the pixels need.
pub fn best_layout(size: u64, bits_per_pixel: u8) -> (r: (u32, u32))
    requires
        size > 0,
        size * 8 <= u64::MAX,
        bits_per_pixel > 0,
    ensures
        ({
            let pixels = ceil_div(size as nat * 8, bits_per_pixel as nat);
            &&& r.0 as nat * r.0 as nat <= pixels < (r.0 as nat + 1) * (r.0 as nat + 1)
            &&& r.0 > 0
            &&& r.1 == ceil_div(pixels, r.0 as nat) as u32
        }),
{
    let bits = size * 8;
    let bpp = bits_per_pixel as u64;
    let pixels = if bits % bpp == 0 {
        bits / bpp
    } else {
        bits / bpp + 1
    };
    proof {
        lemma_ceil_div(bits as nat, bpp as nat);
        assert(pixels >= 1) by (nonlinear_arith)
            requires
                bits >= 8,
                bits <= u64::MAX,
                bpp <= 255,
                bpp > 0,
                pixels == bits / bpp + (if bits % bpp == 0 { 0int } else { 1int }),
        ;
    }
    let width = isqrt(pixels);
    proof {
        assert(width >= 1) by (nonlinear_arith)
            requires
                pixels >= 1,
                pixels < (width + 1) * (width + 1),
        ;
        assert(width < 0x1_0000_0000) by (nonlinear_arith)
            requires
                width * width <= pixels,
                pixels <= u64::MAX,
        ;
        lemma_ceil_div(pixels as nat, width as nat);
    }
    let height = if pixels % width == 0 {
        pixels / width
    } else {
        pixels / width + 1
    };
    (width as u32, height as u32)
}

/// The color channels of an image.
#[derive(Debug, Clone, Copy, PartialEq, Eq, Structural)]
pub enum ColorKind {
    Rgb,
    Rgba,
    Grayscale,
    GrayscaleAlpha,
}

/// Pixel layout of an image: its channels and the bits of each channel.
#[derive(Debug, Clone, Copy, PartialEq, Eq, Structural)]
pub struct Layout {
    pub color: ColorKind,
    pub depth: u8,
}

/// Why a layout name was refused.
#[derive(Debug, Clone, Copy, PartialEq, Eq, Structural)]
pub enum LayoutError {
    /// The name holds no digit, so no bit depth.
    MissingDepth,
    /// The name before the depth is not a known color type.
    UnknownLayout,
    /// The color type does not come with that bit depth.
    BadDepth(ColorKind),
}

/// The color type that a layout name stands for.
pub open spec fn color_named(name: Seq<char>) -> Option<ColorKind> {
    if name == seq!['r', 'g', 'b'] {
        Some(ColorKind::Rgb)
    } else if name == seq!['r', 'g', 'b', 'a'] {
        Some(ColorKind::Rgba)
    } else if name == seq!['g'] {
        Some(ColorKind::Grayscale)
    } else if name == seq!['g', 'a'] {
        Some(ColorKind::GrayscaleAlpha)
    } else {
        None
    }
}

/// The bit depth that a depth text stands for.
pub open spec fn depth_named(bits: Seq<char>) -> Option<u8> {
    if bits == seq!['1'] {
        Some(1u8)
    } else if bits == seq!['2'] {
        Some(2u8)
    } else if bits == seq!['4'] {
        Some(4u8)
    } else if bits == seq!['8'] {
        Some(8u8)
    } else if bits == seq!['1', '6'] {
        Some(16u8)
    } else {
        None
    }
}

/// Color images come in 8 or 16 bits per channel, gray ones also in 1, 2 and 4.
pub open spec fn depth_allowed(color: ColorKind, depth: u8) -> bool {
    match color {
        ColorKind::Rgb | ColorKind::Rgba => depth == 8 || depth == 16,
        _ => depth == 1 || depth == 2 || depth == 4 || depth == 8 || depth == 16,
    }
}

/// What a layout name such as `rgba8` or `g16` stands for.
pub open spec fn layout_spec(s: Seq<char>) -> Result<Layout, LayoutError> {
    match first_digit(s) {
        None => Err(LayoutError::MissingDepth),
        Some(d) => match color_named(s.take(d)) {
            None => Err(LayoutError::UnknownLayout),
            Some(color) => match depth_named(s.skip(d)) {
                Some(depth) => if depth_allowed(color, depth) {
                    Ok(Layout { color, depth })
                } else {
                    Err(LayoutError::BadDepth(color))
                },
                None => Err(LayoutError::BadDepth(color)),
            },
        },
    }
}

/// Channels of a pixel.
pub open spec fn channels(color: ColorKind) -> nat {
    match color {
        ColorKind::Rgb => 3,
        ColorKind::Rgba => 4,
        ColorKind::Grayscale => 1,
        ColorKind::GrayscaleAlpha => 2,
    }
}

/// `s[from..to]` spells `expected`.
fn chars_equal(s: &str, from: usize, to: usize, expected: &Vec<char>) -> (r: bool)
    requires
        from <= to <= s@.len(),
    ensures
        r == (s@.subrange(from as int, to as int) == expected@),
{
    if to - from != expected.len() {
        return false;
    }
    let mut i: usize = 0;
    while i < expected.len()
        invariant
            from <= to <= s@.len(),
            to - from == expected@.len(),
            i <= expected@.len(),
            forall|j: int| 0 <= j < i ==> s@[from + j] == #[trigger] expected@[j],
        decreases expected@.len() - i,
    {
        if s.get_char(from + i) != expected[i] {
            assert(s@.subrange(from as int, to as int)[i as int] != expected@[i as int]);
            return false;
        }
        i = i + 1;
    }
    assert(s@.subrange(from as int, to as int) =~= expected@);
    true
}

/// Reads a layout name: a color type (`rgb`, `rgba`, `g` or `ga`) followed by
/// the bits per channel.
pub fn str_to_layout(layout: &str) -> (r: Result<Layout, LayoutError>)
    ensures
        r == layout_spec(layout@),
{
    let len = layout.unicode_len();
    let mut d: usize = 0;
    while d < len && !(layout.get_char(d) >= '0' && layout.get_char(d) <= '9')
        invariant
            d <= len,
            len == layout@.len(),
            forall|i: int| 0 <= i < d ==> !is_digit(#[trigger] layout@[i]),
        decreases len - d,
    {
        d = d + 1;
    }
    proof {
        crate::embed::lemma_first_digit(layout@, d as int);
    }
    if d == len {
        return Err(LayoutError::MissingDepth);
    }
    assert(layout@.subrange(0, d as int) =~= layout@.take(d as int));
    assert(layout@.subrange(d as int, len as int) =~= layout@.skip(d as int));
    let rgb = vec!['r', 'g', 'b'];
    let rgba = vec!['r', 'g', 'b', 'a'];
    let g = vec!['g'];
    let ga = vec!['g', 'a'];
    assert(rgb@ =~= seq!['r', 'g', 'b']);
    assert(rgba@ =~= seq!['r', 'g', 'b', 'a']);
    assert(g@ =~= seq!['g']);
    assert(ga@ =~= seq!['g', 'a']);
    let color = if chars_equal(layout, 0, d, &rgb) {
        ColorKind::Rgb
    } else if chars_equal(layout, 0, d, &rgba) {
        ColorKind::Rgba
    } else if chars_equal(layout, 0, d, &g) {
        ColorKind::Grayscale
    } else if chars_equal(layout, 0, d, &ga) {
        ColorKind::GrayscaleAlpha
    } else {
        return Err(LayoutError::UnknownLayout);
    };
    let one = vec!['1'];
    let two = vec!['2'];
    let four = vec!['4'];
    let eight = vec!['8'];
    let sixteen = vec!['1', '6'];
    assert(one@ =~= seq!['1']);
    assert(two@ =~= seq!['2']);
    assert(four@ =~= seq!['4']);
    assert(eight@ =~= seq!['8']);
    assert(sixteen@ =~= seq!['1', '6']);
    let depth: u8 = if chars_equal(layout, d, len, &one) {
        1
    } else if chars_equal(layout, d, len, &two) {
        2
    } else if chars_equal(layout, d, len, &four) {
        4
    } else if chars_equal(layout, d, len, &eight) {
        8
    } else if chars_equal(layout, d, len, &sixteen) {
        16
    } else {
        return Err(LayoutError::BadDepth(color));
    };
    let allowed = match color {
        ColorKind::Rgb | ColorKind::Rgba => depth == 8 || depth == 16,
        _ => depth == 1 || depth == 2 || depth == 4 || depth == 8 || depth == 16,
    };
    if allowed {
        Ok(Layout { color, depth })
    } else {
        Err(LayoutError::BadDepth(color))
    }
}

/// Bits of one pixel in a layout.
pub fn bits_per_pixel(layout: Layout) -> (r: u8)
    requires
        layout.depth <= 16,
    ensures
        r == layout.depth * channels(layout.color),
{
    match layout.color {
        ColorKind::Rgb => layout.depth * 3,
        ColorKind::Rgba => layout.depth * 4,
        ColorKind::Grayscale => layout.depth,
        ColorKind::GrayscaleAlpha => layout.depth * 2,
    }
}

} // verus!
