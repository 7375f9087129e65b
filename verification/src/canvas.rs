//! Software composition for layers no plane could take.
//!
//! A layer left without a plane still has to reach the screen. It is blended on
//! the CPU into one full-screen `ARGB8888` surface, in stacking order, and that
//! surface goes on a plane of its own.
//!
//! Pixels are **premultiplied** on both sides: `out = src + dst * (1 - alpha)`.
//! In memory a pixel is its blue, green, red and alpha bytes, in that order, so
//! as a number it reads `0xAARRGGBB`.

use vstd::prelude::*;
use vstd::arithmetic::div_mod::{lemma_fundamental_div_mod, lemma_fundamental_div_mod_converse};
use crate::fourcc;

verus! {

/// A rectangle in whole pixels, half-open in extent.
#[derive(Debug, Clone, Copy, PartialEq, Eq, Structural)]
pub struct CompositeRect {
    /// Left edge. May be negative; the region is clipped.
    pub x: i32,
    /// Top edge. May be negative; the region is clipped.
    pub y: i32,
    /// Width in pixels.
    pub w: u32,
    /// Height in pixels.
    pub h: u32,
}

/// A source surface to blend from.
#[derive(Debug, Clone, Copy)]
pub struct CompositeSrc<'a> {
    /// The pixels, in rows of `src_stride_bytes`.
    pub pixels: &'a [u8],
    /// Distance between row starts, which may exceed `src_width * 4`.
    pub src_stride_bytes: u32,
    /// Width in pixels.
    pub src_width: u32,
    /// Height in pixels.
    pub src_height: u32,
    /// The pixel format. Only `ARGB8888` and `XRGB8888` blend.
    pub drm_fourcc: u32,
    /// The layer's plane alpha, on the KMS `u16` scale.
    pub plane_alpha: u16,
}

/// What a source surface holds.
pub struct Surface {
    /// The pixels, in rows of `src_stride_bytes`.
    pub pixels: Seq<u8>,
    /// Distance between row starts.
    pub src_stride_bytes: u32,
    /// Width in pixels.
    pub src_width: u32,
    /// Height in pixels.
    pub src_height: u32,
    /// The pixel format.
    pub drm_fourcc: u32,
    /// The layer's plane alpha.
    pub plane_alpha: u16,
}

impl<'a> View for CompositeSrc<'a> {
    type V = Surface;

    open spec fn view(&self) -> Surface {
        Surface {
            pixels: self.pixels@,
            src_stride_bytes: self.src_stride_bytes,
            src_width: self.src_width,
            src_height: self.src_height,
            drm_fourcc: self.drm_fourcc,
            plane_alpha: self.plane_alpha,
        }
    }
}

// --- one pixel ---------------------------------------------------------------

/// One byte of a pixel, counted from the blue end: blue, green, red, alpha.
pub open spec fn lane(pixel: int, index: int) -> int {
    if index == 0 {
        pixel % 256
    } else if index == 1 {
        (pixel / 0x100) % 256
    } else if index == 2 {
        (pixel / 0x1_0000) % 256
    } else {
        (pixel / 0x100_0000) % 256
    }
}

/// The pixel with the given channels.
pub open spec fn argb(a: int, r: int, g: int, b: int) -> int {
    a * 0x100_0000 + r * 0x1_0000 + g * 0x100 + b
}

/// `c * k / 255`, rounded to nearest.
pub open spec fn scaled(c: int, k: int) -> int {
    (c * k + 127) / 255
}

/// One channel of `SRC_OVER`, saturating.
pub open spec fn channel_over(src: int, dst: int, alpha: int) -> int {
    let sum = src + scaled(dst, 255 - alpha);
    if sum > 255 {
        255
    } else {
        sum
    }
}

/// `src` over `dst`, channel by channel.
///
/// A transparent source leaves the destination and an opaque one replaces it,
/// exactly.
pub open spec fn pixel_over(src: int, dst: int) -> int {
    let alpha = lane(src, 3);
    if alpha == 0 {
        dst
    } else if alpha == 255 {
        src
    } else {
        argb(
            channel_over(alpha, lane(dst, 3), alpha),
            channel_over(lane(src, 2), lane(dst, 2), alpha),
            channel_over(lane(src, 1), lane(dst, 1), alpha),
            channel_over(lane(src, 0), lane(dst, 0), alpha),
        )
    }
}

/// Every channel scaled by `alpha8 / 255`, which keeps it premultiplied.
pub open spec fn pixel_modulated(pixel: int, alpha8: int) -> int {
    argb(
        scaled(lane(pixel, 3), alpha8),
        scaled(lane(pixel, 2), alpha8),
        scaled(lane(pixel, 1), alpha8),
        scaled(lane(pixel, 0), alpha8),
    )
}

/// The KMS `u16` alpha on the `0..=255` scale, rounded to nearest.
pub open spec fn alpha_of_plane(plane_alpha: int) -> int {
    (plane_alpha * 255 + 32767) / 65535
}

proof fn lemma_lanes(p: u32)
    ensures
        (p >> 24u32) & 0xFFu32 == lane(p as int, 3),
        (p >> 16u32) & 0xFFu32 == lane(p as int, 2),
        (p >> 8u32) & 0xFFu32 == lane(p as int, 1),
        p & 0xFFu32 == lane(p as int, 0),
{
    assert((p >> 24u32) & 0xFFu32 == (p / 0x100_0000u32) % 256u32) by (bit_vector);
    assert((p >> 16u32) & 0xFFu32 == (p / 0x1_0000u32) % 256u32) by (bit_vector);
    assert((p >> 8u32) & 0xFFu32 == (p / 0x100u32) % 256u32) by (bit_vector);
    assert(p & 0xFFu32 == p % 256u32) by (bit_vector);
}

proof fn lemma_argb(a: u32, r: u32, g: u32, b: u32)
    requires
        a <= 255,
        r <= 255,
        g <= 255,
        b <= 255,
    ensures
        ((a << 24u32) | (r << 16u32) | (g << 8u32) | b) == argb(a as int, r as int, g as int, b as int),
{
    assert(((a << 24u32) | (r << 16u32) | (g << 8u32) | b)
        == a * 0x100_0000u32 + r * 0x1_0000u32 + g * 0x100u32 + b) by (bit_vector)
        requires
            a <= 255,
            r <= 255,
            g <= 255,
            b <= 255,
    ;
}

proof fn lemma_scaled_bound(c: int, k: int)
    requires
        0 <= c <= 255,
        0 <= k <= 255,
    ensures
        0 <= c * k <= 65025,
        0 <= scaled(c, k) <= 255,
        scaled(c, k) <= c,
{
    assert(0 <= c * k <= c * 255) by (nonlinear_arith)
        requires
            0 <= c <= 255,
            0 <= k <= 255,
    ;
}

/// Whether this module can blend from `drm_fourcc`.
///
/// An unrecognised format read as `ARGB8888` would come out as colour noise, so
/// it is refused rather than guessed at.
pub fn format_supported(drm_fourcc: u32) -> (supported: bool)
    ensures
        supported == (drm_fourcc == fourcc::ARGB8888 || drm_fourcc == fourcc::XRGB8888),
{
    drm_fourcc == fourcc::ARGB8888 || drm_fourcc == fourcc::XRGB8888
}

/// Whether a format carries no usable alpha channel.
pub fn source_is_opaque(drm_fourcc: u32) -> (opaque: bool)
    ensures
        opaque == (drm_fourcc == fourcc::XRGB8888),
{
    drm_fourcc == fourcc::XRGB8888
}

fn scale_channel(c: u32, k: u32) -> (out: u32)
    requires
        c <= 255,
        k <= 255,
    ensures
        out == scaled(c as int, k as int),
        out <= 255,
{
    proof {
        lemma_scaled_bound(c as int, k as int);
    }
    (c * k + 127) / 255
}

fn saturate_channel(c: u32) -> (out: u32)
    ensures
        out == if c > 255 { 255 } else { c },
{
    if c > 0xFF {
        0xFF
    } else {
        c
    }
}

/// One premultiplied `SRC_OVER` step.
pub fn blend_pixel_over(src: u32, dst: u32) -> (out: u32)
    ensures
        out == pixel_over(src as int, dst as int),
{
    proof {
        lemma_lanes(src);
        lemma_lanes(dst);
    }
    let sa: u32 = (src >> 24) & 0xFF;
    if sa == 0 {
        return dst;
    }
    if sa == 0xFF {
        return src;
    }
    let inv: u32 = 255 - sa;
    let a: u32 = saturate_channel(sa + scale_channel((dst >> 24) & 0xFF, inv));
    let r: u32 = saturate_channel(((src >> 16) & 0xFF) + scale_channel((dst >> 16) & 0xFF, inv));
    let g: u32 = saturate_channel(((src >> 8) & 0xFF) + scale_channel((dst >> 8) & 0xFF, inv));
    let b: u32 = saturate_channel((src & 0xFF) + scale_channel(dst & 0xFF, inv));
    proof {
        lemma_argb(a, r, g, b);
    }
    (a << 24) | (r << 16) | (g << 8) | b
}

/// Scale every channel of a premultiplied pixel by `alpha8 / 255`.
pub fn modulate_pixel(pixel: u32, alpha8: u32) -> (out: u32)
    requires
        alpha8 <= 255,
    ensures
        out == pixel_modulated(pixel as int, alpha8 as int),
{
    proof {
        lemma_lanes(pixel);
    }
    let a: u32 = scale_channel((pixel >> 24) & 0xFF, alpha8);
    let r: u32 = scale_channel((pixel >> 16) & 0xFF, alpha8);
    let g: u32 = scale_channel((pixel >> 8) & 0xFF, alpha8);
    let b: u32 = scale_channel(pixel & 0xFF, alpha8);
    proof {
        lemma_argb(a, r, g, b);
    }
    (a << 24) | (r << 16) | (g << 8) | b
}

/// KMS plane alpha is `u16`; the blend works in `0..=255`.
pub fn plane_alpha8(plane_alpha: u16) -> (alpha8: u32)
    ensures
        alpha8 == alpha_of_plane(plane_alpha as int),
        alpha8 <= 255,
{
    (plane_alpha as u32 * 255 + 32767) / 65535
}

// --- clipping ----------------------------------------------------------------

/// The visible span of one axis after clipping both rectangles.
#[derive(Debug, Clone, Copy, PartialEq, Eq, Structural)]
pub struct AxisRange {
    /// First destination pixel.
    pub dst_start: u32,
    /// One past the last destination pixel.
    pub dst_end: u32,
    /// First source pixel.
    pub src_start: u32,
    /// How many source pixels survived.
    pub src_span: u32,
}

/// The part of `pos .. pos + size` that lies in `0 .. extent`, as its start and
/// its length, or `None` when that is empty.
///
/// An extent past `i32::MAX` has no pixel a signed position can name, and
/// clips everything away.
pub open spec fn clipped(pos: int, size: int, extent: int) -> Option<(int, int)> {
    let start = if pos < 0 { 0 } else { pos };
    let end = if pos + size < extent { pos + size } else { extent };
    if extent > i32::MAX || start >= end {
        None
    } else {
        Some((start, end - start))
    }
}

/// Both sides of one axis, each clipped against its own buffer.
pub open spec fn clipped_axis(
    dst_pos: int,
    dst_size: int,
    dst_extent: int,
    src_pos: int,
    src_size: int,
    src_extent: int,
) -> Option<AxisRange> {
    match (clipped(src_pos, src_size, src_extent), clipped(dst_pos, dst_size, dst_extent)) {
        (Some(src), Some(dst)) => Some(
            AxisRange {
                dst_start: dst.0 as u32,
                dst_end: (dst.0 + dst.1) as u32,
                src_start: src.0 as u32,
                src_span: src.1 as u32,
            },
        ),
        _ => None,
    }
}

fn clip(pos: i32, size: u32, extent: u32) -> (range: Option<(u32, u32)>)
    ensures
        match (range, clipped(pos as int, size as int, extent as int)) {
            (Some(r), Some(c)) => r.0 == c.0 && r.1 == c.1,
            (None, None) => true,
            _ => false,
        },
{
    if extent > 0x7FFF_FFFF {
        return None;
    }
    let start: i64 = if pos < 0 { 0 } else { pos as i64 };
    let far: i64 = pos as i64 + size as i64;
    let end: i64 = if far < extent as i64 { far } else { extent as i64 };
    if start >= end {
        None
    } else {
        Some((start as u32, (end - start) as u32))
    }
}

/// Clip one axis of a blit against both buffers.
///
/// `None` when nothing survives on either side. Negative positions clip rather
/// than wrap.
pub fn clip_axis(
    dst_pos: i32,
    dst_size: u32,
    dst_extent: u32,
    src_pos: i32,
    src_size: u32,
    src_extent: u32,
) -> (range: Option<AxisRange>)
    ensures
        range == clipped_axis(
            dst_pos as int,
            dst_size as int,
            dst_extent as int,
            src_pos as int,
            src_size as int,
            src_extent as int,
        ),
{
    let src = clip(src_pos, src_size, src_extent);
    let dst = clip(dst_pos, dst_size, dst_extent);
    match (src, dst) {
        (Some((src_start, src_span)), Some((dst_start, dst_visible))) => Some(
            AxisRange { dst_start, dst_end: dst_start + dst_visible, src_start, src_span },
        ),
        _ => None,
    }
}

/// The source index a destination index reads, nearest-neighbour.
pub open spec fn mapped_index(dst_idx: int, dst_visible: int, src_span: int) -> int {
    if dst_visible <= 1 {
        0
    } else {
        (dst_idx * src_span) / dst_visible
    }
}

proof fn lemma_mapped_index(dst_idx: int, dst_visible: int, src_span: int)
    requires
        0 <= dst_idx < dst_visible,
        0 < src_span,
    ensures
        0 <= mapped_index(dst_idx, dst_visible, src_span) < src_span,
{
    if dst_visible > 1 {
        assert(0 <= (dst_idx * src_span) / dst_visible < src_span) by (nonlinear_arith)
            requires
                0 <= dst_idx < dst_visible,
                0 < src_span,
                1 < dst_visible,
        ;
    }
}

/// Map a destination index back to a source index, nearest-neighbour.
///
/// One expression for magnifying and minifying alike.
pub fn map_src_index(dst_idx: u32, dst_visible: u32, src_span: u32) -> (src_idx: u32)
    requires
        mapped_index(dst_idx as int, dst_visible as int, src_span as int) <= u32::MAX,
    ensures
        src_idx == mapped_index(dst_idx as int, dst_visible as int, src_span as int),
{
    if dst_visible <= 1 {
        return 0;
    }
    assert(0 <= dst_idx * src_span <= u32::MAX * u32::MAX) by (nonlinear_arith)
        requires
            0 <= dst_idx <= u32::MAX,
            0 <= src_span <= u32::MAX,
    ;
    ((dst_idx as u64 * src_span as u64) / dst_visible as u64) as u32
}

/// Whether a buffer is large enough for `height` rows of `stride` bytes.
///
/// Computed in `u64`, so a stride and height whose product overflows `u32` is
/// held against the real length.
pub fn fits(len: usize, height: u32, stride: u32) -> (enough: bool)
    ensures
        enough == (height * stride <= len),
{
    assert(0 <= height * stride <= u32::MAX * u32::MAX) by (nonlinear_arith)
        requires
            0 <= height <= u32::MAX,
            0 <= stride <= u32::MAX,
    ;
    let required: u64 = height as u64 * stride as u64;
    required <= len as u64
}

// --- buffers -----------------------------------------------------------------

/// The pixel whose first byte is at `at`.
pub open spec fn pixel_at(buffer: Seq<u8>, at: int) -> int {
    argb(
        buffer[at + 3] as int,
        buffer[at + 2] as int,
        buffer[at + 1] as int,
        buffer[at] as int,
    )
}

/// Whether byte `i` of a buffer of `stride`-byte rows belongs to a pixel with
/// column in `x0 .. x1` and row in `y0 .. y1`.
pub open spec fn in_region(i: int, stride: int, x0: int, x1: int, y0: int, y1: int) -> bool {
    y0 <= i / stride < y1 && x0 <= (i % stride) / 4 < x1
}

/// Whether a surface can be painted: it has pixels, its rows hold them, and
/// the buffer holds its rows.
pub open spec fn paintable(len: int, stride: int, width: int, height: int) -> bool {
    width > 0 && height > 0 && stride >= width * 4 && height * stride <= len
}

pub proof fn lemma_position(y: int, stride: int, offset: int)
    requires
        0 <= y,
        0 <= offset < stride,
    ensures
        (y * stride + offset) / stride == y,
        (y * stride + offset) % stride == offset,
        forall|i: int|
            #![trigger i / stride]
            #![trigger i % stride]
            i / stride == y && i % stride == offset ==> i == y * stride + offset,
{
    lemma_fundamental_div_mod_converse(y * stride + offset, stride, y, offset);
    assert forall|i: int|
        #![trigger i / stride]
        #![trigger i % stride]
        i / stride == y && i % stride == offset implies i == y * stride + offset by {
        lemma_fundamental_div_mod(i, stride);
        assert(stride * y == y * stride) by (nonlinear_arith);
    }
}

pub proof fn lemma_in_buffer(y: int, height: int, stride: int, offset: int, len: int)
    requires
        0 <= y < height,
        0 <= offset < stride,
        height * stride <= len,
    ensures
        0 <= y * stride,
        y * stride + stride <= len,
        0 <= y * stride + offset < len,
{
    assert(y * stride + stride <= height * stride) by (nonlinear_arith)
        requires
            0 <= y < height,
            0 < stride,
    ;
    assert(0 <= y * stride) by (nonlinear_arith)
        requires
            0 <= y,
            0 < stride,
    ;
}

/// `dst` with the clipped part of `rect` set to zero.
pub open spec fn cleared(
    dst: Seq<u8>,
    stride: int,
    width: int,
    height: int,
    rect: CompositeRect,
) -> Seq<u8> {
    match (clipped(rect.x as int, rect.w as int, width), clipped(rect.y as int, rect.h as int, height)) {
        (Some(x), Some(y)) if paintable(dst.len() as int, stride, width, height) => Seq::new(
            dst.len(),
            |i: int|
                if in_region(i, stride, x.0, x.0 + x.1, y.0, y.0 + y.1) {
                    0
                } else {
                    dst[i]
                },
        ),
        _ => dst,
    }
}

/// Zero-fill a rectangle of `dst`, clipped to its extents.
///
/// Zero is transparent black, the identity of `SRC_OVER`. A surface whose
/// stated geometry does not fit its buffer is left alone.
pub fn clear_into(
    dst: &mut [u8],
    dst_stride_bytes: u32,
    dst_width: u32,
    dst_height: u32,
    rect: CompositeRect,
)
    ensures
        final(dst)@ == cleared(
            old(dst)@,
            dst_stride_bytes as int,
            dst_width as int,
            dst_height as int,
            rect,
        ),
{
    let len: usize = dst.len();
    if dst_width == 0 || dst_height == 0 {
        return;
    }
    if (dst_stride_bytes as u64) < dst_width as u64 * 4 || !fits(
        len,
        dst_height,
        dst_stride_bytes,
    ) {
        return;
    }
    let (xs, ys) = match (clip(rect.x, rect.w, dst_width), clip(rect.y, rect.h, dst_height)) {
        (Some(xs), Some(ys)) => (xs, ys),
        _ => {
            return;
        },
    };
    let ghost start = dst@;
    let ghost stride = dst_stride_bytes as int;
    let ghost x0 = xs.0 as int;
    let ghost x1 = xs.0 + xs.1;
    let ghost y0 = ys.0 as int;
    let y_end: u32 = ys.0 + ys.1;
    let from: usize = xs.0 as usize * 4;
    let to: usize = (xs.0 + xs.1) as usize * 4;
    let mut y: u32 = ys.0;
    while y < y_end
        invariant
            y0 <= y <= y_end <= dst_height,
            0 <= x0 < x1,
            from == x0 * 4,
            to == x1 * 4,
            to <= stride,
            stride == dst_stride_bytes,
            dst_height * stride <= start.len(),
            dst@.len() == start.len(),
            start.len() <= usize::MAX,
            forall|i: int|
                0 <= i < start.len() ==> #[trigger] dst@[i] == if in_region(
                    i,
                    stride,
                    x0,
                    x1,
                    y0,
                    y as int,
                ) {
                    0
                } else {
                    start[i]
                },
        decreases y_end - y,
    {
        proof {
            lemma_in_buffer(y as int, dst_height as int, stride, from as int, start.len() as int);
        }
        let row: usize = y as usize * dst_stride_bytes as usize;
        let mut offset: usize = from;
        while offset < to
            invariant
                y0 <= y < dst_height,
                0 <= x0 < x1,
                from == x0 * 4,
                to == x1 * 4,
                from <= offset <= to <= stride,
                row == y * stride,
                0 < stride,
                row + stride <= start.len(),
                dst@.len() == start.len(),
                start.len() <= usize::MAX,
                forall|i: int|
                    0 <= i < start.len() ==> #[trigger] dst@[i] == if in_region(
                        i,
                        stride,
                        x0,
                        x1,
                        y0,
                        y as int,
                    ) || (i / stride == y && from <= i % stride < offset) {
                        0
                    } else {
                        start[i]
                    },
            decreases to - offset,
        {
            proof {
                lemma_position(y as int, stride, offset as int);
            }
            dst[row + offset] = 0;
            offset += 1;
        }
        y += 1;
    }
    proof {
        assert(dst@ =~= cleared(
            start,
            stride,
            dst_width as int,
            dst_height as int,
            rect,
        ));
    }
}

/// `dst` with `height` packed rows of `row_bytes` laid at every `stride` bytes.
pub open spec fn rows_copied(
    dst: Seq<u8>,
    stride: int,
    packed: Seq<u8>,
    row_bytes: int,
    height: int,
) -> Seq<u8> {
    if row_bytes == 0 || row_bytes > stride || dst.len() < stride * height || packed.len()
        < row_bytes * height {
        dst
    } else {
        Seq::new(
            dst.len(),
            |i: int|
                if i / stride < height && i % stride < row_bytes {
                    packed[(i / stride) * row_bytes + i % stride]
                } else {
                    dst[i]
                },
        )
    }
}

/// Copy `height` tightly packed rows into a buffer that may be strided wider.
///
/// The padding between rows is left alone, and a geometry either buffer is too
/// small for copies nothing.
pub fn copy_rows(dst: &mut [u8], dst_stride: usize, shadow: &[u8], row_bytes: usize, height: usize)
    ensures
        final(dst)@ == rows_copied(
            old(dst)@,
            dst_stride as int,
            shadow@,
            row_bytes as int,
            height as int,
        ),
{
    let len: usize = dst.len();
    let packed_len: usize = shadow.len();
    if row_bytes > dst_stride || row_bytes == 0 {
        return;
    }
    assert(0 <= row_bytes * height <= dst_stride * height <= usize::MAX * usize::MAX)
        by (nonlinear_arith)
        requires
            0 <= row_bytes <= dst_stride <= usize::MAX,
            0 <= height <= usize::MAX,
    ;
    assert(usize::MAX * usize::MAX <= u128::MAX) by (nonlinear_arith)
        requires
            0 <= usize::MAX <= 0xFFFF_FFFF_FFFF_FFFF,
    ;
    if (len as u128) < dst_stride as u128 * height as u128 || (packed_len as u128)
        < row_bytes as u128 * height as u128 {
        return;
    }
    assert(dst_stride * height == height * dst_stride && row_bytes * height == height * row_bytes)
        by (nonlinear_arith);
    let ghost start = dst@;
    let ghost stride = dst_stride as int;
    let mut y: usize = 0;
    while y < height
        invariant
            0 <= y <= height,
            0 < row_bytes <= stride,
            stride == dst_stride,
            height * stride <= start.len(),
            height * row_bytes <= shadow@.len() <= usize::MAX,
            dst@.len() == start.len(),
            start.len() <= usize::MAX,
            forall|i: int|
                0 <= i < start.len() ==> #[trigger] dst@[i] == if i / stride < y && i % stride
                    < row_bytes {
                    shadow@[(i / stride) * row_bytes + i % stride]
                } else {
                    start[i]
                },
        decreases height - y,
    {
        proof {
            lemma_in_buffer(y as int, height as int, stride, 0, start.len() as int);
            lemma_in_buffer(y as int, height as int, row_bytes as int, 0, shadow@.len() as int);
        }
        let to: usize = y * dst_stride;
        let from: usize = y * row_bytes;
        let mut k: usize = 0;
        while k < row_bytes
            invariant
                0 <= k <= row_bytes <= stride,
                0 <= y < height,
                0 < row_bytes,
                to == y * stride,
                from == y * row_bytes,
                to + stride <= start.len(),
                from + row_bytes <= shadow@.len() <= usize::MAX,
                dst@.len() == start.len(),
                start.len() <= usize::MAX,
                forall|i: int|
                    0 <= i < start.len() ==> #[trigger] dst@[i] == if (i / stride < y && i % stride
                        < row_bytes) || (i / stride == y && i % stride < k) {
                        shadow@[(i / stride) * row_bytes + i % stride]
                    } else {
                        start[i]
                    },
            decreases row_bytes - k,
        {
            proof {
                lemma_position(y as int, stride, k as int);
            }
            dst[to + k] = shadow[from + k];
            k += 1;
        }
        y += 1;
    }
    proof {
        assert(dst@ =~= rows_copied(start, stride, shadow@, row_bytes as int, height as int));
    }
}

// --- blending ----------------------------------------------------------------

/// What a source contributes at column `x` and row `y`: its stored pixel, made
/// opaque where the format has no alpha, scaled by the layer's plane alpha.
pub open spec fn source_pixel(src: Surface, x: int, y: int) -> int {
    let stored = pixel_at(src.pixels, y * src.src_stride_bytes + x * 4);
    let solid = if src.drm_fourcc == fourcc::XRGB8888 {
        0xFF00_0000 + stored % 0x100_0000
    } else {
        stored
    };
    let alpha8 = alpha_of_plane(src.plane_alpha as int);
    if alpha8 < 255 {
        pixel_modulated(solid, alpha8)
    } else {
        solid
    }
}

/// The source position that destination position `at` of an axis reads.
pub open spec fn sampled(axis: AxisRange, at: int) -> int {
    axis.src_start + mapped_index(
        at - axis.dst_start,
        axis.dst_end - axis.dst_start,
        axis.src_span as int,
    )
}

/// Byte `i` of `dst` once the pixel it belongs to has been blended.
pub open spec fn blended_byte(
    dst: Seq<u8>,
    i: int,
    stride: int,
    src: Surface,
    xr: AxisRange,
    yr: AxisRange,
) -> int {
    let x = (i % stride) / 4;
    let y = i / stride;
    let channel = (i % stride) % 4;
    lane(
        pixel_over(source_pixel(src, sampled(xr, x), sampled(yr, y)), pixel_at(dst, i - channel)),
        channel,
    )
}

/// The part of a blit that reaches the destination, one range per axis, or
/// `None` when the blit is refused or entirely clipped away.
pub open spec fn blit_ranges(
    len: int,
    stride: int,
    width: int,
    height: int,
    src: Surface,
    src_rect: CompositeRect,
    dst_rect: CompositeRect,
) -> Option<(AxisRange, AxisRange)> {
    let xr = clipped_axis(
        dst_rect.x as int,
        dst_rect.w as int,
        width,
        src_rect.x as int,
        src_rect.w as int,
        src.src_width as int,
    );
    let yr = clipped_axis(
        dst_rect.y as int,
        dst_rect.h as int,
        height,
        src_rect.y as int,
        src_rect.h as int,
        src.src_height as int,
    );
    if (src.drm_fourcc == fourcc::ARGB8888 || src.drm_fourcc == fourcc::XRGB8888) && paintable(
        len,
        stride,
        width,
        height,
    ) && src.src_stride_bytes >= src.src_width * 4 && src.src_height * src.src_stride_bytes
        <= src.pixels.len() && xr is Some && yr is Some {
        Some((xr->0, yr->0))
    } else {
        None
    }
}

/// `dst` with `src` blended over it.
pub open spec fn blended(
    dst: Seq<u8>,
    stride: int,
    width: int,
    height: int,
    src: Surface,
    src_rect: CompositeRect,
    dst_rect: CompositeRect,
) -> Seq<u8> {
    match blit_ranges(dst.len() as int, stride, width, height, src, src_rect, dst_rect) {
        Some((xr, yr)) => Seq::new(
            dst.len(),
            |i: int|
                if in_region(
                    i,
                    stride,
                    xr.dst_start as int,
                    xr.dst_end as int,
                    yr.dst_start as int,
                    yr.dst_end as int,
                ) {
                    blended_byte(dst, i, stride, src, xr, yr) as u8
                } else {
                    dst[i]
                },
        ),
        None => dst,
    }
}

/// The bytes of the pixel at column `x`, row `y` are the four from
/// `y * stride + x * 4`.
proof fn lemma_pixel_bytes(x: int, y: int, stride: int)
    requires
        0 <= x,
        0 <= y,
        x * 4 + 4 <= stride,
    ensures
        forall|i: int|
            #![trigger i / stride]
            #![trigger i % stride]
            (i / stride == y && (i % stride) / 4 == x) <==> (y * stride + x * 4 <= i < y * stride + x
                * 4 + 4),
        forall|i: int|
            #![trigger i / stride]
            #![trigger i % stride]
            y * stride + x * 4 <= i < y * stride + x * 4 + 4 ==> (i % stride) % 4 == i - (y * stride
                + x * 4),
{
    assert forall|i: int|
        #![trigger i / stride]
        #![trigger i % stride]
        y * stride + x * 4 <= i < y * stride + x * 4 + 4 implies i / stride == y && (i % stride) / 4
        == x && (i % stride) % 4 == i - (y * stride + x * 4) by {
        lemma_position(y, stride, i - y * stride);
    }
    assert forall|i: int|
        #![trigger i / stride]
        #![trigger i % stride]
        i / stride == y && (i % stride) / 4 == x implies y * stride + x * 4 <= i < y * stride + x * 4
        + 4 by {
        lemma_fundamental_div_mod(i, stride);
        assert(stride * y == y * stride) by (nonlinear_arith);
    }
}

fn load_pixel(buffer: &[u8], at: usize) -> (pixel: u32)
    requires
        at + 4 <= buffer@.len(),
    ensures
        pixel == pixel_at(buffer@, at as int),
{
    buffer[at] as u32 + buffer[at + 1] as u32 * 0x100 + buffer[at + 2] as u32 * 0x1_0000 + buffer[at
        + 3] as u32 * 0x100_0000
}

fn store_pixel(buffer: &mut [u8], at: usize, pixel: u32)
    requires
        at + 4 <= old(buffer)@.len(),
    ensures
        final(buffer)@.len() == old(buffer)@.len(),
        forall|i: int|
            0 <= i < old(buffer)@.len() ==> #[trigger] final(buffer)@[i] == if at <= i < at + 4 {
                lane(pixel as int, i - at) as u8
            } else {
                old(buffer)@[i]
            },
{
    buffer[at] = (pixel % 0x100) as u8;
    buffer[at + 1] = ((pixel / 0x100) % 0x100) as u8;
    buffer[at + 2] = ((pixel / 0x1_0000) % 0x100) as u8;
    buffer[at + 3] = ((pixel / 0x100_0000) % 0x100) as u8;
}

/// The pixel a source contributes at column `x` and row `y`.
fn read_source(src: &CompositeSrc<'_>, x: u32, y: u32) -> (pixel: u32)
    requires
        x < src.src_width,
        y < src.src_height,
        src.src_stride_bytes >= src.src_width * 4,
        src.src_height * src.src_stride_bytes <= src.pixels@.len(),
    ensures
        pixel == source_pixel(src@, x as int, y as int),
{
    let len: usize = src.pixels.len();
    proof {
        lemma_in_buffer(
            y as int,
            src.src_height as int,
            src.src_stride_bytes as int,
            x as int * 4,
            len as int,
        );
    }
    let row: usize = y as usize * src.src_stride_bytes as usize;
    let at: usize = row + x as usize * 4;
    let mut pixel: u32 = load_pixel(src.pixels, at);
    if source_is_opaque(src.drm_fourcc) {
        assert(pixel | 0xFF00_0000u32 == 0xFF00_0000u32 + pixel % 0x100_0000u32) by (bit_vector);
        pixel = pixel | 0xFF00_0000;
    }
    let alpha8: u32 = plane_alpha8(src.plane_alpha);
    if alpha8 < 0xFF {
        pixel = modulate_pixel(pixel, alpha8);
    }
    pixel
}

/// Blend `src` over `dst`, premultiplied `SRC_OVER`.
///
/// Both rectangles are clipped against their own buffer, and mismatched sizes
/// scale nearest-neighbour. An unsupported format, or a buffer smaller than its
/// stated geometry, blends nothing.
pub fn blend_into(
    dst: &mut [u8],
    dst_stride_bytes: u32,
    dst_width: u32,
    dst_height: u32,
    src: &CompositeSrc<'_>,
    src_rect: CompositeRect,
    dst_rect: CompositeRect,
)
    ensures
        final(dst)@ == blended(
            old(dst)@,
            dst_stride_bytes as int,
            dst_width as int,
            dst_height as int,
            src@,
            src_rect,
            dst_rect,
        ),
{
    let len: usize = dst.len();
    if dst_width == 0 || dst_height == 0 || !format_supported(src.drm_fourcc) {
        return;
    }
    if (dst_stride_bytes as u64) < dst_width as u64 * 4 || !fits(len, dst_height, dst_stride_bytes) {
        return;
    }
    if (src.src_stride_bytes as u64) < src.src_width as u64 * 4 || !fits(
        src.pixels.len(),
        src.src_height,
        src.src_stride_bytes,
    ) {
        return;
    }
    let across = clip_axis(
        dst_rect.x,
        dst_rect.w,
        dst_width,
        src_rect.x,
        src_rect.w,
        src.src_width,
    );
    let down = clip_axis(
        dst_rect.y,
        dst_rect.h,
        dst_height,
        src_rect.y,
        src_rect.h,
        src.src_height,
    );
    let (xr, yr) = match (across, down) {
        (Some(xr), Some(yr)) => (xr, yr),
        _ => {
            return;
        },
    };
    let ghost start = dst@;
    let ghost stride = dst_stride_bytes as int;
    let mut y: u32 = yr.dst_start;
    while y < yr.dst_end
        invariant
            yr.dst_start <= y <= yr.dst_end <= dst_height,
            xr.dst_start < xr.dst_end <= dst_width,
            xr.src_start + xr.src_span <= src.src_width,
            yr.src_start + yr.src_span <= src.src_height,
            0 < xr.src_span,
            0 < yr.src_span,
            src.src_stride_bytes >= src.src_width * 4,
            src.src_height * src.src_stride_bytes <= src.pixels@.len(),
            stride == dst_stride_bytes,
            stride >= dst_width * 4,
            dst_height * stride <= start.len(),
            dst@.len() == start.len(),
            start.len() <= usize::MAX,
            forall|i: int|
                0 <= i < start.len() ==> #[trigger] dst@[i] == if in_region(
                    i,
                    stride,
                    xr.dst_start as int,
                    xr.dst_end as int,
                    yr.dst_start as int,
                    y as int,
                ) {
                    blended_byte(start, i, stride, src@, xr, yr) as u8
                } else {
                    start[i]
                },
        decreases yr.dst_end - y,
    {
        proof {
            lemma_mapped_index(
                y - yr.dst_start,
                yr.dst_end - yr.dst_start,
                yr.src_span as int,
            );
            lemma_in_buffer(y as int, dst_height as int, stride, 0, start.len() as int);
        }
        let sy: u32 = yr.src_start + map_src_index(
            y - yr.dst_start,
            yr.dst_end - yr.dst_start,
            yr.src_span,
        );
        let row: usize = y as usize * dst_stride_bytes as usize;
        let mut x: u32 = xr.dst_start;
        while x < xr.dst_end
            invariant
                yr.dst_start <= y < yr.dst_end <= dst_height,
                xr.dst_start <= x <= xr.dst_end <= dst_width,
                xr.dst_start < xr.dst_end,
                xr.src_start + xr.src_span <= src.src_width,
                0 < xr.src_span,
                sy < src.src_height,
                sy == sampled(yr, y as int),
                src.src_stride_bytes >= src.src_width * 4,
                src.src_height * src.src_stride_bytes <= src.pixels@.len(),
                row == y * stride,
                stride >= dst_width * 4,
                row + stride <= start.len(),
                dst@.len() == start.len(),
                start.len() <= usize::MAX,
                forall|i: int|
                    0 <= i < start.len() ==> #[trigger] dst@[i] == if in_region(
                        i,
                        stride,
                        xr.dst_start as int,
                        xr.dst_end as int,
                        yr.dst_start as int,
                        y as int,
                    ) || in_region(
                        i,
                        stride,
                        xr.dst_start as int,
                        x as int,
                        y as int,
                        y + 1,
                    ) {
                        blended_byte(start, i, stride, src@, xr, yr) as u8
                    } else {
                        start[i]
                    },
            decreases xr.dst_end - x,
        {
            proof {
                lemma_mapped_index(
                    x - xr.dst_start,
                    xr.dst_end - xr.dst_start,
                    xr.src_span as int,
                );
                lemma_pixel_bytes(x as int, y as int, stride);
            }
            let sx: u32 = xr.src_start + map_src_index(
                x - xr.dst_start,
                xr.dst_end - xr.dst_start,
                xr.src_span,
            );
            let at: usize = row + x as usize * 4;
            let ghost before = dst@;
            assert(forall|i: int| at <= i < at + 4 ==> #[trigger] before[i] == start[i]) by {
                assert forall|i: int| at <= i < at + 4 implies #[trigger] before[i] == start[i] by {
                    assert(i / stride == y && (i % stride) / 4 == x);
                }
            }
            assert(pixel_at(before, at as int) == pixel_at(start, at as int));
            let under: u32 = load_pixel(dst, at);
            let out: u32 = blend_pixel_over(read_source(src, sx, sy), under);
            store_pixel(dst, at, out);
            proof {
                assert forall|i: int| 0 <= i < start.len() implies #[trigger] dst@[i] == if in_region(
                    i,
                    stride,
                    xr.dst_start as int,
                    xr.dst_end as int,
                    yr.dst_start as int,
                    y as int,
                ) || in_region(i, stride, xr.dst_start as int, x + 1, y as int, y + 1) {
                    blended_byte(start, i, stride, src@, xr, yr) as u8
                } else {
                    start[i]
                } by {
                    if at <= i < at + 4 {
                        assert(i / stride == y && (i % stride) / 4 == x && (i % stride) % 4 == i
                            - at);
                    } else {
                        assert(!(i / stride == y && (i % stride) / 4 == x));
                        assert(dst@[i] == before[i]);
                    }
                }
            }
            x += 1;
        }
        y += 1;
    }
    proof {
        assert(dst@ =~= blended(
            start,
            stride,
            dst_width as int,
            dst_height as int,
            src@,
            src_rect,
            dst_rect,
        ));
    }
}

// --- the surface -------------------------------------------------------------

/// One scanout buffer: its mapped bytes, the distance between its rows, and the
/// framebuffer registered for it.
///
/// A forgotten buffer has no bytes and no framebuffer.
#[derive(Debug)]
pub struct ScanoutBuffer {
    /// Distance between row starts, as the allocator chose it.
    pub stride: u32,
    /// The mapped bytes; empty once the mapping is gone.
    pub data: Vec<u8>,
    /// The framebuffer id, while the kernel knows one.
    pub fb_id: Option<u32>,
}

impl ScanoutBuffer {
    /// Whether the buffer holds no mapping.
    pub fn is_empty(&self) -> (empty: bool)
        ensures
            empty == (self.data@.len() == 0),
    {
        self.data.len() == 0
    }

    /// Drop the mapping and the framebuffer id without telling the kernel.
    pub fn forget(&mut self)
        ensures
            final(self).stride == old(self).stride,
            final(self).data@.len() == 0,
            final(self).fb_id is None,
    {
        self.data.clear();
        self.fb_id = None;
    }
}

/// A double-buffered software composition surface.
///
/// The CPU paints a shadow in ordinary memory, and [`flush`](Self::flush) copies
/// it into the back buffer while the kernel scans out the other one.
pub struct CompositeCanvas {
    /// The buffer being painted into.
    pub back: ScanoutBuffer,
    /// The buffer the kernel may be scanning out.
    pub front: ScanoutBuffer,
    /// The paint target, packed rows of the whole canvas.
    pub shadow: Vec<u8>,
    /// Width in pixels.
    pub width: u32,
    /// Height in pixels.
    pub height: u32,
}

impl CompositeCanvas {
    /// The shadow holds exactly the canvas, and a row's length is a `u32`.
    pub open spec fn well_formed(&self) -> bool {
        &&& self.width * 4 <= u32::MAX
        &&& self.shadow@.len() == self.width * self.height * 4
    }

    /// A canvas of `width` by `height` over two allocated buffers, painting the
    /// first, with a transparent shadow.
    pub fn create(first: ScanoutBuffer, second: ScanoutBuffer, width: u32, height: u32) -> (canvas:
        Self)
        requires
            width * 4 <= u32::MAX,
            width * height * 4 <= usize::MAX,
        ensures
            canvas.well_formed(),
            canvas.back == first,
            canvas.front == second,
            canvas.width == width,
            canvas.height == height,
            canvas.shadow@ == Seq::new((width * height * 4) as nat, |i: int| 0u8),
    {
        assert(0 <= width * height <= width * height * 4) by (nonlinear_arith)
            requires
                0 <= width,
                0 <= height,
        ;
        let size: usize = width as usize * height as usize * 4;
        let shadow: Vec<u8> = vec![0; size];
        proof {
            assert(shadow@ =~= Seq::new((width * height * 4) as nat, |i: int| 0u8));
        }
        CompositeCanvas { back: first, front: second, shadow, width, height }
    }

    /// Swap back and front, once per frame and before the first paint.
    pub fn begin_frame(&mut self)
        ensures
            *final(self) == (CompositeCanvas {
                back: old(self).front,
                front: old(self).back,
                ..*old(self)
            }),
    {
        core::mem::swap(&mut self.back, &mut self.front);
    }

    /// Zero the whole shadow: transparent black, the `SRC_OVER` identity.
    pub fn clear(&mut self)
        ensures
            final(self).shadow@ == Seq::new(old(self).shadow@.len(), |i: int| 0u8),
            *final(self) == (CompositeCanvas { shadow: final(self).shadow, ..*old(self) }),
    {
        let blank: Vec<u8> = vec![0; self.shadow.len()];
        proof {
            assert(blank@ =~= Seq::new(self.shadow@.len(), |i: int| 0u8));
        }
        self.shadow = blank;
    }

    /// Zero one rectangle of the shadow.
    pub fn clear_rect(&mut self, rect: CompositeRect)
        requires
            old(self).well_formed(),
        ensures
            final(self).well_formed(),
            final(self).shadow@ == cleared(
                old(self).shadow@,
                old(self).width * 4,
                old(self).width as int,
                old(self).height as int,
                rect,
            ),
            *final(self) == (CompositeCanvas { shadow: final(self).shadow, ..*old(self) }),
    {
        clear_into(self.shadow.as_mut_slice(), self.width * 4, self.width, self.height, rect);
    }

    /// Blend one source over the shadow.
    pub fn blend(&mut self, src: &CompositeSrc<'_>, src_rect: CompositeRect, dst_rect: CompositeRect)
        requires
            old(self).well_formed(),
        ensures
            final(self).well_formed(),
            final(self).shadow@ == blended(
                old(self).shadow@,
                old(self).width * 4,
                old(self).width as int,
                old(self).height as int,
                src@,
                src_rect,
                dst_rect,
            ),
            *final(self) == (CompositeCanvas { shadow: final(self).shadow, ..*old(self) }),
    {
        blend_into(
            self.shadow.as_mut_slice(),
            self.width * 4,
            self.width,
            self.height,
            src,
            src_rect,
            dst_rect,
        );
    }

    /// Copy the painted shadow into the back buffer, row by row.
    pub fn flush(&mut self)
        requires
            old(self).well_formed(),
        ensures
            final(self).well_formed(),
            final(self).back.data@ == rows_copied(
                old(self).back.data@,
                old(self).back.stride as int,
                old(self).shadow@,
                old(self).width * 4,
                old(self).height as int,
            ),
            *final(self) == (CompositeCanvas {
                back: ScanoutBuffer { data: final(self).back.data, ..old(self).back },
                ..*old(self)
            }),
    {
        copy_rows(
            self.back.data.as_mut_slice(),
            self.back.stride as usize,
            self.shadow.as_slice(),
            self.width as usize * 4,
            self.height as usize,
        );
    }

    /// The framebuffer to arm on the canvas plane: the one just painted.
    pub fn fb_id(&self) -> (id: Option<u32>)
        ensures
            id == self.back.fb_id,
    {
        self.back.fb_id
    }

    /// Canvas width in pixels.
    pub fn width(&self) -> (width: u32)
        ensures
            width == self.width,
    {
        self.width
    }

    /// Canvas height in pixels.
    pub fn height(&self) -> (height: u32)
        ensures
            height == self.height,
    {
        self.height
    }

    /// Read one pixel back out of the buffer being painted.
    ///
    /// Zero for a pixel outside the canvas, or once the mapping is gone.
    pub fn back_pixel(&self, x: u32, y: u32) -> (pixel: u32)
        ensures
            pixel == if x < self.width && y < self.height && y * self.back.stride + x * 4 + 4
                <= self.back.data@.len() {
                pixel_at(self.back.data@, y * self.back.stride + x * 4)
            } else {
                0
            },
    {
        if x >= self.width || y >= self.height {
            return 0;
        }
        let stride: u32 = self.back.stride;
        assert(0 <= y * stride <= u32::MAX * u32::MAX) by (nonlinear_arith)
            requires
                0 <= y <= u32::MAX,
                0 <= stride <= u32::MAX,
        ;
        let at: u128 = y as u128 * stride as u128 + x as u128 * 4;
        let len: usize = self.back.data.len();
        if at + 4 > len as u128 {
            return 0;
        }
        load_pixel(self.back.data.as_slice(), at as usize)
    }

    /// Whether the canvas can be armed.
    ///
    /// False once [`forget`](Self::forget) has run.
    pub fn armable(&self) -> (armable: bool)
        ensures
            armable == (self.back.data@.len() > 0 && self.front.data@.len() > 0
                && self.back.fb_id is Some),
    {
        !self.back.is_empty() && !self.front.is_empty() && self.fb_id().is_some()
    }

    /// Drop both buffers' kernel state. The shadow survives: it is ordinary
    /// memory and owes the device nothing.
    pub fn forget(&mut self)
        ensures
            final(self).back.data@.len() == 0,
            final(self).front.data@.len() == 0,
            final(self).back.fb_id is None,
            final(self).front.fb_id is None,
            final(self).back.stride == old(self).back.stride,
            final(self).front.stride == old(self).front.stride,
            *final(self) == (CompositeCanvas {
                back: final(self).back,
                front: final(self).front,
                ..*old(self)
            }),
    {
        self.back.forget();
        self.front.forget();
    }
}

// --- laws --------------------------------------------------------------------

proof fn lemma_argb_lanes(a: int, r: int, g: int, b: int)
    requires
        0 <= a <= 255,
        0 <= r <= 255,
        0 <= g <= 255,
        0 <= b <= 255,
    ensures
        lane(argb(a, r, g, b), 0) == b,
        lane(argb(a, r, g, b), 1) == g,
        lane(argb(a, r, g, b), 2) == r,
        lane(argb(a, r, g, b), 3) == a,
{
    let p = argb(a, r, g, b);
    assert(p / 0x100_0000 == a) by {
        lemma_fundamental_div_mod_converse(p, 0x100_0000, a, p - a * 0x100_0000);
    }
    assert(p / 0x1_0000 == a * 256 + r) by {
        lemma_fundamental_div_mod_converse(p, 0x1_0000, a * 256 + r, g * 256 + b);
    }
    assert(p / 0x100 == (a * 256 + r) * 256 + g) by {
        lemma_fundamental_div_mod_converse(p, 0x100, (a * 256 + r) * 256 + g, b);
    }
    assert((a * 256 + r) % 256 == r) by {
        lemma_fundamental_div_mod_converse(a * 256 + r, 256, a, r);
    }
    assert(((a * 256 + r) * 256 + g) % 256 == g) by {
        lemma_fundamental_div_mod_converse((a * 256 + r) * 256 + g, 256, a * 256 + r, g);
    }
    assert(p % 256 == b) by {
        lemma_fundamental_div_mod_converse(p, 256, (a * 256 + r) * 256 + g, b);
    }
}

proof fn lemma_pixel_is_its_lanes(pixel: int)
    requires
        0 <= pixel <= u32::MAX,
    ensures
        argb(lane(pixel, 3), lane(pixel, 2), lane(pixel, 1), lane(pixel, 0)) == pixel,
{
    let p = pixel as u32;
    assert((p / 0x100_0000u32) % 256u32 * 0x100_0000u32 + (p / 0x1_0000u32) % 256u32 * 0x1_0000u32 + (p
        / 0x100u32) % 256u32 * 0x100u32 + p % 256u32 == p) by (bit_vector);
}

/// Whether no colour channel exceeds the alpha channel.
pub open spec fn premultiplied(pixel: int) -> bool {
    lane(pixel, 0) <= lane(pixel, 3) && lane(pixel, 1) <= lane(pixel, 3) && lane(pixel, 2) <= lane(
        pixel,
        3,
    )
}

proof fn lemma_scaled_monotone(c: int, d: int, k: int)
    requires
        c <= d,
        0 <= k,
    ensures
        scaled(c, k) <= scaled(d, k),
{
    assert(c * k <= d * k) by (nonlinear_arith)
        requires
            c <= d,
            0 <= k,
    ;
}

/// Blending any pixel over transparent black gives that pixel back: a cleared
/// canvas is the identity of `SRC_OVER`.
pub proof fn law_transparent_black_is_identity(src: int)
    requires
        0 <= src <= u32::MAX,
    ensures
        pixel_over(src, 0) == if lane(src, 3) == 0 {
            0
        } else {
            src
        },
        premultiplied(src) ==> pixel_over(src, 0) == src,
{
    lemma_pixel_is_its_lanes(src);
}

/// Scaling by a plane alpha keeps a pixel premultiplied.
pub proof fn law_modulation_keeps_premultiplied(pixel: int, alpha8: int)
    requires
        0 <= alpha8 <= 255,
        premultiplied(pixel),
    ensures
        premultiplied(pixel_modulated(pixel, alpha8)),
{
    lemma_scaled_bound(lane(pixel, 0), alpha8);
    lemma_scaled_bound(lane(pixel, 1), alpha8);
    lemma_scaled_bound(lane(pixel, 2), alpha8);
    lemma_scaled_bound(lane(pixel, 3), alpha8);
    lemma_scaled_monotone(lane(pixel, 0), lane(pixel, 3), alpha8);
    lemma_scaled_monotone(lane(pixel, 1), lane(pixel, 3), alpha8);
    lemma_scaled_monotone(lane(pixel, 2), lane(pixel, 3), alpha8);
    lemma_argb_lanes(
        scaled(lane(pixel, 3), alpha8),
        scaled(lane(pixel, 2), alpha8),
        scaled(lane(pixel, 1), alpha8),
        scaled(lane(pixel, 0), alpha8),
    );
}

/// One premultiplied pixel over another is premultiplied, so a run of blends
/// never leaves the convention it rests on.
pub proof fn law_over_keeps_premultiplied(src: int, dst: int)
    requires
        premultiplied(src),
        premultiplied(dst),
    ensures
        premultiplied(pixel_over(src, dst)),
{
    let alpha = lane(src, 3);
    if alpha != 0 && alpha != 255 {
        let inv = 255 - alpha;
        lemma_scaled_bound(lane(dst, 0), inv);
        lemma_scaled_bound(lane(dst, 1), inv);
        lemma_scaled_bound(lane(dst, 2), inv);
        lemma_scaled_bound(lane(dst, 3), inv);
        lemma_scaled_monotone(lane(dst, 0), lane(dst, 3), inv);
        lemma_scaled_monotone(lane(dst, 1), lane(dst, 3), inv);
        lemma_scaled_monotone(lane(dst, 2), lane(dst, 3), inv);
        lemma_argb_lanes(
            channel_over(alpha, lane(dst, 3), alpha),
            channel_over(lane(src, 2), lane(dst, 2), alpha),
            channel_over(lane(src, 1), lane(dst, 1), alpha),
            channel_over(lane(src, 0), lane(dst, 0), alpha),
        );
    }
}

/// A blend touches no byte outside its destination rectangle and none outside
/// the canvas: what falls off one edge does not reappear at another.
pub proof fn law_blend_stays_inside(
    dst: Seq<u8>,
    stride: int,
    width: int,
    height: int,
    src: Surface,
    src_rect: CompositeRect,
    dst_rect: CompositeRect,
    i: int,
)
    requires
        0 <= i < dst.len(),
        !in_region(i, stride, 0, width, 0, height) || !in_region(
            i,
            stride,
            dst_rect.x as int,
            dst_rect.x + dst_rect.w,
            dst_rect.y as int,
            dst_rect.y + dst_rect.h,
        ),
        width <= u32::MAX,
        height <= u32::MAX,
    ensures
        blended(dst, stride, width, height, src, src_rect, dst_rect)[i] == dst[i],
        blended(dst, stride, width, height, src, src_rect, dst_rect).len() == dst.len(),
{
}

/// A blit that survives clipping reads only rows and columns the source has.
pub proof fn law_blend_reads_inside_the_source(
    len: int,
    stride: int,
    width: int,
    height: int,
    src: Surface,
    src_rect: CompositeRect,
    dst_rect: CompositeRect,
    x: int,
    y: int,
)
    requires
        blit_ranges(len, stride, width, height, src, src_rect, dst_rect) matches Some((xr, yr))
            && xr.dst_start <= x < xr.dst_end && yr.dst_start <= y < yr.dst_end,
        width <= u32::MAX,
        height <= u32::MAX,
    ensures
        ({
            let (xr, yr) = blit_ranges(len, stride, width, height, src, src_rect, dst_rect)->0;
            0 <= sampled(xr, x) < src.src_width && 0 <= sampled(yr, y) < src.src_height
        }),
{
    let (xr, yr) = blit_ranges(len, stride, width, height, src, src_rect, dst_rect)->0;
    lemma_mapped_index(x - xr.dst_start, xr.dst_end - xr.dst_start, xr.src_span as int);
    lemma_mapped_index(y - yr.dst_start, yr.dst_end - yr.dst_start, yr.src_span as int);
}

/// Blending over a freshly cleared rectangle does not depend on what the
/// canvas held there before: two canvases of the same size that agree nowhere
/// agree inside the rectangle once it is cleared and painted.
pub proof fn law_clear_forgets_the_last_frame(
    before: Seq<u8>,
    other: Seq<u8>,
    stride: int,
    width: int,
    height: int,
    src: Surface,
    src_rect: CompositeRect,
    rect: CompositeRect,
    i: int,
)
    requires
        before.len() == other.len(),
        0 <= i < before.len(),
        paintable(before.len() as int, stride, width, height),
        width <= i32::MAX,
        height <= i32::MAX,
        in_region(i, stride, 0, width, 0, height),
        in_region(
            i,
            stride,
            rect.x as int,
            rect.x + rect.w,
            rect.y as int,
            rect.y + rect.h,
        ),
    ensures
        blended(cleared(before, stride, width, height, rect), stride, width, height, src, src_rect, rect)[i]
            == blended(
            cleared(other, stride, width, height, rect),
            stride,
            width,
            height,
            src,
            src_rect,
            rect,
        )[i],
{
    let x = (i % stride) / 4;
    let y = i / stride;
    let at = y * stride + x * 4;
    let a = cleared(before, stride, width, height, rect);
    let b = cleared(other, stride, width, height, rect);
    lemma_in_buffer(y, height, stride, x * 4 + 3, before.len() as int);
    lemma_pixel_bytes(x, y, stride);
    assert(at <= i < at + 4);
    assert forall|k: int| at <= k < at + 4 implies #[trigger] a[k] == 0 && b[k] == 0 by {
        assert(k / stride == y && (k % stride) / 4 == x);
    }
    assert(pixel_at(a, at) == pixel_at(b, at));
}

/// Whether `q` is the integer nearest to `n / d`.
pub open spec fn is_nearest(q: int, n: int, d: int) -> bool {
    -d <= 2 * (n - q * d) <= d
}

proof fn lemma_scaled_is_nearest(c: int, k: int)
    requires
        0 <= c <= 255,
        0 <= k <= 255,
    ensures
        is_nearest(scaled(c, k), c * k, 255),
{
    lemma_scaled_bound(c, k);
}

/// The channels of a pixel are its four bytes, and a pixel is put together from
/// them.
pub proof fn law_a_pixel_is_its_channels(a: int, r: int, g: int, b: int)
    requires
        0 <= a <= 255,
        0 <= r <= 255,
        0 <= g <= 255,
        0 <= b <= 255,
    ensures
        argb(a, r, g, b) == ((a * 256 + r) * 256 + g) * 256 + b,
        lane(argb(a, r, g, b), 0) == b,
        lane(argb(a, r, g, b), 1) == g,
        lane(argb(a, r, g, b), 2) == r,
        lane(argb(a, r, g, b), 3) == a,
{
    lemma_argb_lanes(a, r, g, b);
}

/// One pixel over another: each channel is the source's and what its alpha leaves
/// of the destination's, to the nearest, and never above full. A transparent
/// source leaves the destination as it was, an opaque one replaces it.
pub proof fn law_over_adds_what_the_source_leaves(
    sa: int,
    sr: int,
    sg: int,
    sb: int,
    da: int,
    dr: int,
    dg: int,
    db: int,
)
    requires
        0 <= sa <= 255,
        0 <= sr <= 255,
        0 <= sg <= 255,
        0 <= sb <= 255,
        0 <= da <= 255,
        0 <= dr <= 255,
        0 <= dg <= 255,
        0 <= db <= 255,
    ensures
        ({
            let out = pixel_over(argb(sa, sr, sg, sb), argb(da, dr, dg, db));
            &&& sa == 0 ==> out == argb(da, dr, dg, db)
            &&& sa == 255 ==> out == argb(sa, sr, sg, sb)
            &&& 0 < sa < 255 ==> {
                &&& out == argb(lane(out, 3), lane(out, 2), lane(out, 1), lane(out, 0))
                &&& over_to_the_nearest(lane(out, 3), sa, da, sa)
                &&& over_to_the_nearest(lane(out, 2), sr, dr, sa)
                &&& over_to_the_nearest(lane(out, 1), sg, dg, sa)
                &&& over_to_the_nearest(lane(out, 0), sb, db, sa)
            }
        }),
{
    lemma_argb_lanes(sa, sr, sg, sb);
    lemma_argb_lanes(da, dr, dg, db);
    let inv = 255 - sa;
    lemma_scaled_bound(da, inv);
    lemma_scaled_bound(dr, inv);
    lemma_scaled_bound(dg, inv);
    lemma_scaled_bound(db, inv);
    lemma_channel_is_nearest(sa, da, sa);
    lemma_channel_is_nearest(sr, dr, sa);
    lemma_channel_is_nearest(sg, dg, sa);
    lemma_channel_is_nearest(sb, db, sa);
    lemma_argb_lanes(
        channel_over(sa, da, sa),
        channel_over(sr, dr, sa),
        channel_over(sg, dg, sa),
        channel_over(sb, db, sa),
    );
}

proof fn lemma_channel_is_nearest(src: int, dst: int, alpha: int)
    requires
        0 <= src <= 255,
        0 <= dst <= 255,
        0 <= alpha <= 255,
    ensures
        over_to_the_nearest(channel_over(src, dst, alpha), src, dst, alpha),
        0 <= channel_over(src, dst, alpha) <= 255,
{
    let sum = src + scaled(dst, 255 - alpha);
    lemma_scaled_bound(dst, 255 - alpha);
    lemma_scaled_is_nearest(dst, 255 - alpha);
    assert(is_nearest(sum - src, dst * (255 - alpha), 255));
}

/// Whether a channel is the source's plus what alpha leaves of the destination's,
/// to the nearest, capped at full.
pub open spec fn over_to_the_nearest(out: int, src: int, dst: int, alpha: int) -> bool {
    ||| is_nearest(out - src, dst * (255 - alpha), 255) && out <= 255
    ||| out == 255 && exists|over: int|
        over > 255 && #[trigger] is_nearest(over - src, dst * (255 - alpha), 255)
}

/// Modulating scales every channel alike, to the nearest.
pub proof fn law_modulation_scales_every_channel(a: int, r: int, g: int, b: int, alpha8: int)
    requires
        0 <= a <= 255,
        0 <= r <= 255,
        0 <= g <= 255,
        0 <= b <= 255,
        0 <= alpha8 <= 255,
    ensures
        ({
            let out = pixel_modulated(argb(a, r, g, b), alpha8);
            &&& is_nearest(lane(out, 3), a * alpha8, 255)
            &&& is_nearest(lane(out, 2), r * alpha8, 255)
            &&& is_nearest(lane(out, 1), g * alpha8, 255)
            &&& is_nearest(lane(out, 0), b * alpha8, 255)
            &&& out == argb(lane(out, 3), lane(out, 2), lane(out, 1), lane(out, 0))
        }),
{
    lemma_argb_lanes(a, r, g, b);
    lemma_scaled_bound(a, alpha8);
    lemma_scaled_bound(r, alpha8);
    lemma_scaled_bound(g, alpha8);
    lemma_scaled_bound(b, alpha8);
    lemma_scaled_is_nearest(a, alpha8);
    lemma_scaled_is_nearest(r, alpha8);
    lemma_scaled_is_nearest(g, alpha8);
    lemma_scaled_is_nearest(b, alpha8);
    lemma_argb_lanes(scaled(a, alpha8), scaled(r, alpha8), scaled(g, alpha8), scaled(b, alpha8));
}

/// A plane alpha is brought down to eight bits, to the nearest: none is none and
/// full is full.
pub proof fn law_plane_alpha_is_brought_to_eight_bits(plane_alpha: int)
    requires
        0 <= plane_alpha <= 0xFFFF,
    ensures
        is_nearest(alpha_of_plane(plane_alpha), plane_alpha * 255, 65535),
        alpha_of_plane(0) == 0,
        alpha_of_plane(0xFFFF) == 255,
{
}

/// What survives clipping is exactly what lies both in the span and in the
/// buffer.
pub proof fn law_clipping_keeps_what_is_inside(pos: int, size: int, extent: int, p: int)
    requires
        0 <= size,
        0 <= extent <= i32::MAX,
    ensures
        match clipped(pos, size, extent) {
            Some((start, len)) => len > 0 && ((start <= p < start + len) <==> (pos <= p < pos + size
                && 0 <= p < extent)),
            None => !(pos <= p < pos + size && 0 <= p < extent),
        },
{
}

/// A destination pixel reads the source pixel that lies at the same fraction of
/// its span, rounded down.
pub proof fn law_sampling_keeps_the_fraction(dst_idx: int, dst_visible: int, src_span: int)
    requires
        0 <= dst_idx < dst_visible,
        0 < src_span,
    ensures
        ({
            let at = mapped_index(dst_idx, dst_visible, src_span);
            &&& 0 <= at < src_span
            &&& at * dst_visible <= dst_idx * src_span < (at + 1) * dst_visible || dst_visible == 1
            &&& dst_visible == 1 ==> at == 0
            &&& dst_visible == src_span ==> at == dst_idx
        }),
{
    lemma_mapped_index(dst_idx, dst_visible, src_span);
    if dst_visible > 1 {
        let n = dst_idx * src_span;
        lemma_fundamental_div_mod(n, dst_visible);
        let at = n / dst_visible;
        assert(at * dst_visible == dst_visible * at) by (nonlinear_arith);
        assert((at + 1) * dst_visible == at * dst_visible + dst_visible) by (nonlinear_arith);
        if dst_visible == src_span {
            lemma_fundamental_div_mod_converse(n, dst_visible, dst_idx, 0);
        }
    }
}

/// A value, or the bound below it.
pub open spec fn at_least(value: int, low: int) -> int {
    if value < low {
        low
    } else {
        value
    }
}

/// A value, or the bound above it.
pub open spec fn at_most(value: int, high: int) -> int {
    if value > high {
        high
    } else {
        value
    }
}

/// Blending, pixel by pixel. A pixel of the canvas inside the destination shows
/// the source over what was there, taken from the place in the source's visible
/// part that matches its place in the destination's; every other pixel is left
/// alone.
pub proof fn law_each_pixel_is_blended_from_its_place(
    dst: Seq<u8>,
    stride: int,
    width: int,
    height: int,
    src: Surface,
    src_rect: CompositeRect,
    dst_rect: CompositeRect,
    x: int,
    y: int,
    b: int,
)
    requires
        src.drm_fourcc == 0x3432_5241 || src.drm_fourcc == 0x3432_5258,
        0 < width <= i32::MAX,
        0 < height <= i32::MAX,
        stride >= width * 4,
        height * stride <= dst.len(),
        src.src_stride_bytes >= src.src_width * 4,
        src.src_height * src.src_stride_bytes <= src.pixels.len(),
        src.src_width <= i32::MAX,
        src.src_height <= i32::MAX,
        0 <= x < width,
        0 <= y < height,
        dst_rect.x <= x < dst_rect.x + dst_rect.w,
        dst_rect.y <= y < dst_rect.y + dst_rect.h,
        at_least(src_rect.x as int, 0) < at_most(src_rect.x + src_rect.w, src.src_width as int),
        at_least(src_rect.y as int, 0) < at_most(src_rect.y + src_rect.h, src.src_height as int),
        0 <= b < 4,
    ensures
        ({
            let left = at_least(dst_rect.x as int, 0);
            let across = at_most(dst_rect.x + dst_rect.w, width) - left;
            let top = at_least(dst_rect.y as int, 0);
            let down = at_most(dst_rect.y + dst_rect.h, height) - top;
            let src_left = at_least(src_rect.x as int, 0);
            let src_across = at_most(src_rect.x + src_rect.w, src.src_width as int) - src_left;
            let src_top = at_least(src_rect.y as int, 0);
            let src_down = at_most(src_rect.y + src_rect.h, src.src_height as int) - src_top;
            let sx = src_left + mapped_index(x - left, across, src_across);
            let sy = src_top + mapped_index(y - top, down, src_down);
            let at = y * stride + x * 4;
            let from = sy * src.src_stride_bytes + sx * 4;
            let stored = argb(
                if src.drm_fourcc == 0x3432_5258 {
                    255
                } else {
                    src.pixels[from + 3] as int
                },
                src.pixels[from + 2] as int,
                src.pixels[from + 1] as int,
                src.pixels[from] as int,
            );
            let alpha8 = alpha_of_plane(src.plane_alpha as int);
            let shown = if alpha8 < 255 {
                pixel_modulated(stored, alpha8)
            } else {
                stored
            };
            let was = argb(
                dst[at + 3] as int,
                dst[at + 2] as int,
                dst[at + 1] as int,
                dst[at] as int,
            );
            blended(dst, stride, width, height, src, src_rect, dst_rect)[at + b] == lane(
                pixel_over(shown, was),
                b,
            ) as u8
        }),
{
    let at = y * stride + x * 4;
    let left = at_least(dst_rect.x as int, 0);
    let across = at_most(dst_rect.x + dst_rect.w, width) - left;
    let top = at_least(dst_rect.y as int, 0);
    let down = at_most(dst_rect.y + dst_rect.h, height) - top;
    let src_left = at_least(src_rect.x as int, 0);
    let src_across = at_most(src_rect.x + src_rect.w, src.src_width as int) - src_left;
    let src_top = at_least(src_rect.y as int, 0);
    let src_down = at_most(src_rect.y + src_rect.h, src.src_height as int) - src_top;
    lemma_pixel_bytes(x, y, stride);
    lemma_in_buffer(y, height, stride, x * 4 + b, dst.len() as int);
    let i = at + b;
    assert(i / stride == y && (i % stride) / 4 == x && (i % stride) % 4 == b);
    let ranges = blit_ranges(dst.len() as int, stride, width, height, src, src_rect, dst_rect);
    assert(ranges is Some);
    let (xr, yr) = ranges->0;
    assert(xr.dst_start == left && xr.dst_end == left + across && xr.src_start == src_left
        && xr.src_span == src_across);
    assert(yr.dst_start == top && yr.dst_end == top + down && yr.src_start == src_top && yr.src_span
        == src_down);
    let sx = sampled(xr, x);
    let sy = sampled(yr, y);
    let from = sy * src.src_stride_bytes + sx * 4;
    let stored = pixel_at(src.pixels, from);
    lemma_argb_lanes(
        src.pixels[from + 3] as int,
        src.pixels[from + 2] as int,
        src.pixels[from + 1] as int,
        src.pixels[from] as int,
    );
    assert(stored % 0x100_0000 == src.pixels[from + 2] * 0x1_0000 + src.pixels[from + 1] * 0x100
        + src.pixels[from]) by {
        lemma_fundamental_div_mod_converse(
            stored,
            0x100_0000,
            src.pixels[from + 3] as int,
            src.pixels[from + 2] * 0x1_0000 + src.pixels[from + 1] * 0x100 + src.pixels[from],
        );
    }
}

/// Clearing blanks the pixels of the rectangle that the canvas has, and only
/// those.
pub proof fn law_clearing_blanks_the_rectangle(
    dst: Seq<u8>,
    stride: int,
    width: int,
    height: int,
    rect: CompositeRect,
    x: int,
    y: int,
    b: int,
)
    requires
        0 < width <= i32::MAX,
        0 < height <= i32::MAX,
        stride >= width * 4,
        height * stride <= dst.len(),
        0 <= x,
        x * 4 + 4 <= stride,
        0 <= y < height,
        0 <= b < 4,
    ensures
        cleared(dst, stride, width, height, rect)[y * stride + x * 4 + b] == if rect.x <= x < rect.x
            + rect.w && rect.y <= y < rect.y + rect.h && x < width {
            0
        } else {
            dst[y * stride + x * 4 + b]
        },
{
    let i = y * stride + x * 4 + b;
    lemma_pixel_bytes(x, y, stride);
    lemma_in_buffer(y, height, stride, x * 4 + b, dst.len() as int);
    assert(i / stride == y && (i % stride) / 4 == x);
}

/// Flushing lays each packed row at its own row of the buffer, and leaves the
/// padding behind it alone.
pub proof fn law_rows_are_copied_to_their_rows(
    dst: Seq<u8>,
    stride: int,
    packed: Seq<u8>,
    row_bytes: int,
    height: int,
    row: int,
    offset: int,
)
    requires
        0 < row_bytes <= stride,
        0 <= height,
        stride * height <= dst.len(),
        row_bytes * height <= packed.len(),
        0 <= row < height,
        0 <= offset < stride,
    ensures
        rows_copied(dst, stride, packed, row_bytes, height)[row * stride + offset] == if offset
            < row_bytes {
            packed[row * row_bytes + offset]
        } else {
            dst[row * stride + offset]
        },
        rows_copied(dst, stride, packed, row_bytes, height).len() == dst.len(),
{
    lemma_position(row, stride, offset);
    assert(row * stride + offset < stride * height) by (nonlinear_arith)
        requires
            0 <= row < height,
            0 <= offset < stride,
    ;
}

/// Nothing is painted past a surface's last row, and nothing at all where the
/// buffer or a row is too short, the source's own rows are not all there, or its
/// format cannot be blended.
pub proof fn law_what_does_not_fit_is_left_alone(
    dst: Seq<u8>,
    stride: int,
    width: int,
    height: int,
    src: Surface,
    src_rect: CompositeRect,
    rect: CompositeRect,
    i: int,
)
    requires
        0 < width <= i32::MAX,
        0 < height <= i32::MAX,
    ensures
        ({
            let blank = cleared(dst, stride, width, height, rect);
            let mixed = blended(dst, stride, width, height, src, src_rect, rect);
            &&& stride < width * 4 || dst.len() < height * stride ==> blank == dst && mixed == dst
            &&& stride > 0 && height * stride <= i < dst.len() ==> blank[i] == dst[i] && mixed[i]
                == dst[i]
            &&& blank.len() == dst.len() && mixed.len() == dst.len()
            &&& src.drm_fourcc != 0x3432_5241 && src.drm_fourcc != 0x3432_5258 ==> mixed == dst
            &&& src.src_stride_bytes < src.src_width * 4 ==> mixed == dst
            &&& src.pixels.len() < src.src_height * src.src_stride_bytes ==> mixed == dst
            &&& at_least(src_rect.x as int, 0) >= at_most(
                src_rect.x + src_rect.w,
                src.src_width as int,
            ) ==> mixed == dst
            &&& at_least(src_rect.y as int, 0) >= at_most(
                src_rect.y + src_rect.h,
                src.src_height as int,
            ) ==> mixed == dst
        }),
{
    if stride > 0 && height * stride <= i {
        assert(i / stride >= height) by (nonlinear_arith)
            requires
                stride > 0,
                height * stride <= i,
        ;
    }
}

/// Flushing writes nothing past the last row, and nothing at all where the rows
/// are empty or wider than the buffer's, or either side is too short.
pub proof fn law_rows_that_do_not_fit_are_not_copied(
    dst: Seq<u8>,
    stride: int,
    packed: Seq<u8>,
    row_bytes: int,
    height: int,
    i: int,
)
    requires
        0 <= row_bytes,
        0 <= height,
    ensures
        row_bytes == 0 || row_bytes > stride || dst.len() < stride * height || packed.len()
            < row_bytes * height ==> rows_copied(dst, stride, packed, row_bytes, height) == dst,
        stride > 0 && stride * height <= i < dst.len() ==> rows_copied(
            dst,
            stride,
            packed,
            row_bytes,
            height,
        )[i] == dst[i],
{
    if stride > 0 && stride * height <= i {
        assert(i / stride >= height) by (nonlinear_arith)
            requires
                stride > 0,
                stride * height <= i,
        ;
    }
}

} // verus!
