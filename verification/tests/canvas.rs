//! Blending, clearing and copying pixels.

use drmkit::canvas::{
    blend_into, blend_pixel_over, clear_into, clip_axis, copy_rows, format_supported,
    map_src_index, modulate_pixel, plane_alpha8, source_is_opaque, CompositeCanvas, CompositeRect,
    CompositeSrc, ScanoutBuffer,
};
use drmkit::fourcc;

/// A canvas of `w * h` pixels, tightly strided.
fn canvas(w: u32, h: u32) -> Vec<u8> {
    vec![0; (w * h * 4) as usize]
}

fn px(buf: &[u8], stride: u32, x: u32, y: u32) -> u32 {
    let at = (y * stride + x * 4) as usize;
    u32::from_ne_bytes([buf[at], buf[at + 1], buf[at + 2], buf[at + 3]])
}

fn solid(w: u32, h: u32, argb: u32) -> Vec<u8> {
    argb.to_ne_bytes().repeat((w * h) as usize)
}

fn src(pixels: &[u8], w: u32, h: u32, fourcc: u32) -> CompositeSrc<'_> {
    CompositeSrc {
        pixels,
        src_stride_bytes: w * 4,
        src_width: w,
        src_height: h,
        drm_fourcc: fourcc,
        plane_alpha: 0xFFFF,
    }
}

fn whole(w: u32, h: u32) -> CompositeRect {
    CompositeRect { x: 0, y: 0, w, h }
}

#[test]
fn an_opaque_source_replaces_what_was_under_it() {
    let mut dst = solid(4, 4, 0xFF00_00FF);
    let pixels = solid(4, 4, 0xFFFF_0000);
    blend_into(
        &mut dst,
        16,
        4,
        4,
        &src(&pixels, 4, 4, fourcc::ARGB8888),
        whole(4, 4),
        whole(4, 4),
    );
    assert_eq!(px(&dst, 16, 2, 2), 0xFFFF_0000);
}

#[test]
fn a_fully_transparent_source_leaves_the_destination_alone() {
    let mut dst = solid(4, 4, 0xFF00_00FF);
    let pixels = solid(4, 4, 0x0000_0000);
    blend_into(
        &mut dst,
        16,
        4,
        4,
        &src(&pixels, 4, 4, fourcc::ARGB8888),
        whole(4, 4),
        whole(4, 4),
    );
    assert_eq!(px(&dst, 16, 1, 1), 0xFF00_00FF);
}

/// Half-alpha red, premultiplied, over opaque blue.
///
/// Premultiplied means the source's own channels are *already* scaled by
/// its alpha, so they are added rather than interpolated:
/// `out = src + dst * (1 - src_a)`. Reading 0x80 red as "half of 0xFF red"
/// and lerping would give a different, wrong answer -- which is exactly the
/// mistake a straight-alpha source causes.
#[test]
fn a_half_alpha_source_composites_premultiplied() {
    let mut dst = solid(2, 2, 0xFF00_00FF);
    let pixels = solid(2, 2, 0x8080_0000);
    blend_into(
        &mut dst,
        8,
        2,
        2,
        &src(&pixels, 2, 2, fourcc::ARGB8888),
        whole(2, 2),
        whole(2, 2),
    );

    // inv = 0x7F. blue: 0x00 + (0xFF * 0x7F + 127)/255 = 0x7F.
    // red:  0x80 + (0x00 * ...)                        = 0x80.
    // a:    0x80 + (0xFF * 0x7F + 127)/255             = 0xFF.
    assert_eq!(px(&dst, 8, 0, 0), 0xFF80_007F);
}

/// An XRGB source is opaque even where its fourth byte is clear.
///
/// That byte is undefined padding, not alpha. Trusting it would make an
/// opaque layer randomly transparent wherever the producer happened to
/// leave it zero -- and a producer that memsets its buffer leaves all of it
/// zero, so the layer would vanish entirely.
#[test]
fn an_xrgb_source_ignores_its_padding_byte() {
    let mut dst = solid(2, 2, 0xFF00_00FF);
    let pixels = solid(2, 2, 0x00FF_0000);
    blend_into(
        &mut dst,
        8,
        2,
        2,
        &src(&pixels, 2, 2, fourcc::XRGB8888),
        whole(2, 2),
        whole(2, 2),
    );
    assert_eq!(px(&dst, 8, 0, 0), 0xFFFF_0000);
}

/// Plane alpha scales colour as well as alpha.
///
/// Leaving the colour channels alone would produce `rgb > a`, which is not
/// a valid premultiplied pixel; `blend_pixel_over` assumes it never sees
/// one, and the visible result is a bright halo at the layer's edges.
#[test]
fn plane_alpha_keeps_the_pixel_premultiplied() {
    let mut dst = canvas(2, 2);
    let pixels = solid(2, 2, 0xFFFF_FFFF);
    let mut source = src(&pixels, 2, 2, fourcc::ARGB8888);
    source.plane_alpha = 0x8000;
    blend_into(&mut dst, 8, 2, 2, &source, whole(2, 2), whole(2, 2));

    let out = px(&dst, 8, 0, 0);
    let a = (out >> 24) & 0xFF;
    for shift in [16, 8, 0] {
        assert!(
            (out >> shift) & 0xFF <= a,
            "channel at {shift} exceeds alpha {a:#x} in {out:#010x}"
        );
    }
}

/// Fully opaque plane alpha must not darken the source at all.
///
/// `0xFFFF` has to map to exactly `0xFF`; a truncating conversion lands on
/// `0xFE` and every frame is composited a shade dark.
#[test]
fn opaque_plane_alpha_is_a_no_op() {
    let mut dst = canvas(2, 2);
    let pixels = solid(2, 2, 0xFFAB_CDEF);
    blend_into(
        &mut dst,
        8,
        2,
        2,
        &src(&pixels, 2, 2, fourcc::ARGB8888),
        whole(2, 2),
        whole(2, 2),
    );
    assert_eq!(px(&dst, 8, 1, 1), 0xFFAB_CDEF);
}

/// A layer partly off the left edge is clipped, not wrapped.
#[test]
fn a_negative_destination_clips() {
    let mut dst = canvas(4, 1);
    let pixels = solid(4, 1, 0xFFFF_0000);
    blend_into(
        &mut dst,
        16,
        4,
        1,
        &src(&pixels, 4, 1, fourcc::ARGB8888),
        whole(4, 1),
        CompositeRect {
            x: -2,
            y: 0,
            w: 4,
            h: 1,
        },
    );
    assert_eq!(px(&dst, 16, 0, 0), 0xFFFF_0000);
    assert_eq!(px(&dst, 16, 1, 0), 0xFFFF_0000);
    // The two pixels that fell off the left must not reappear on the right.
    assert_eq!(px(&dst, 16, 2, 0), 0);
    assert_eq!(px(&dst, 16, 3, 0), 0);
}

/// A destination entirely off-screen writes nothing.
#[test]
fn a_fully_clipped_destination_writes_nothing() {
    let mut dst = solid(4, 4, 0xFF00_00FF);
    let before = dst.clone();
    let pixels = solid(4, 4, 0xFFFF_0000);
    blend_into(
        &mut dst,
        16,
        4,
        4,
        &src(&pixels, 4, 4, fourcc::ARGB8888),
        whole(4, 4),
        CompositeRect {
            x: 100,
            y: 0,
            w: 4,
            h: 4,
        },
    );
    assert_eq!(dst, before);
}

/// An unsupported format is refused rather than reinterpreted.
#[test]
fn an_unsupported_format_writes_nothing() {
    let mut dst = solid(2, 2, 0xFF00_00FF);
    let before = dst.clone();
    let pixels = solid(2, 2, 0xFFFF_0000);
    blend_into(
        &mut dst,
        8,
        2,
        2,
        &src(&pixels, 2, 2, fourcc::NV12),
        whole(2, 2),
        whole(2, 2),
    );
    assert_eq!(dst, before, "an NV12 source must not be blended as ARGB");
}

/// A source buffer shorter than its declared geometry writes nothing.
///
/// The guard is the only thing standing between a mis-declared stride and
/// an out-of-bounds read, so it is worth a case of its own.
#[test]
fn a_short_source_buffer_writes_nothing() {
    let mut dst = solid(4, 4, 0xFF00_00FF);
    let before = dst.clone();
    let pixels = vec![0xFFu8; 8]; // claims 4x4, holds 2 pixels
    blend_into(
        &mut dst,
        16,
        4,
        4,
        &src(&pixels, 4, 4, fourcc::ARGB8888),
        whole(4, 4),
        whole(4, 4),
    );
    assert_eq!(dst, before);
}

/// Magnifying picks nearest-neighbour source pixels.
#[test]
fn a_smaller_source_scales_up() {
    let mut dst = canvas(4, 1);
    let mut pixels = Vec::new();
    pixels.extend_from_slice(&0xFFFF_0000u32.to_ne_bytes());
    pixels.extend_from_slice(&0xFF00_FF00u32.to_ne_bytes());
    blend_into(
        &mut dst,
        16,
        4,
        1,
        &src(&pixels, 2, 1, fourcc::ARGB8888),
        whole(2, 1),
        whole(4, 1),
    );
    assert_eq!(px(&dst, 16, 0, 0), 0xFFFF_0000);
    assert_eq!(px(&dst, 16, 1, 0), 0xFFFF_0000);
    assert_eq!(px(&dst, 16, 2, 0), 0xFF00_FF00);
    assert_eq!(px(&dst, 16, 3, 0), 0xFF00_FF00);
}

/// Clearing a rectangle restores the `SRC_OVER` identity there.
#[test]
fn clearing_a_rect_leaves_the_rest_intact() {
    let mut dst = solid(4, 2, 0xFFFF_FFFF);
    clear_into(
        &mut dst,
        16,
        4,
        2,
        CompositeRect {
            x: 1,
            y: 0,
            w: 2,
            h: 1,
        },
    );
    assert_eq!(px(&dst, 16, 0, 0), 0xFFFF_FFFF);
    assert_eq!(px(&dst, 16, 1, 0), 0);
    assert_eq!(px(&dst, 16, 2, 0), 0);
    assert_eq!(px(&dst, 16, 3, 0), 0xFFFF_FFFF);
    assert_eq!(px(&dst, 16, 1, 1), 0xFFFF_FFFF, "row 1 is untouched");
}

/// Stacking order is the caller's, and it decides what covers what.
#[test]
fn later_blends_land_on_top() {
    let mut dst = canvas(2, 2);
    let under = solid(2, 2, 0xFFFF_0000);
    let over = solid(2, 2, 0xFF00_FF00);
    for pixels in [&under, &over] {
        blend_into(
            &mut dst,
            8,
            2,
            2,
            &src(pixels, 2, 2, fourcc::ARGB8888),
            whole(2, 2),
            whole(2, 2),
        );
    }
    assert_eq!(px(&dst, 8, 0, 0), 0xFF00_FF00);
}

/// Padding stays between rows instead of shifting them.
///
/// The failure this guards against is not a crash -- it is every row after
/// the first landing a few pixels further left than the last, so the image
/// shears diagonally. Unreachable on vkms, which never pads.
#[test]
fn a_padded_stride_does_not_shear_the_image() {
    let row_bytes = 8; // two pixels
    let stride = 12; // one pixel of padding per row
    let height = 3;
    let shadow: Vec<u8> = (0..u8::try_from(row_bytes * height).expect("fits")).collect();
    let mut dst = vec![0xEE; stride * height];

    copy_rows(&mut dst, stride, &shadow, row_bytes, height);

    for y in 0..height {
        let at = y * stride;
        assert_eq!(
            &dst[at..at + row_bytes],
            &shadow[y * row_bytes..(y + 1) * row_bytes],
            "row {y} landed at the wrong offset"
        );
        assert_eq!(
            &dst[at + row_bytes..at + stride],
            &[0xEE; 4],
            "row {y}'s padding must be left alone, not written through"
        );
    }
}

/// A destination too small for its stated geometry is left untouched.
#[test]
fn a_short_destination_copies_nothing() {
    let mut dst = vec![0u8; 8];
    let before = dst.clone();
    copy_rows(&mut dst, 8, &[1, 2, 3, 4, 5, 6, 7, 8], 8, 4);
    assert_eq!(dst, before);
}

/// A stride narrower than a row is refused rather than truncating.
#[test]
fn a_stride_narrower_than_a_row_copies_nothing() {
    let mut dst = vec![0u8; 16];
    let before = dst.clone();
    copy_rows(&mut dst, 4, &[9u8; 16], 8, 2);
    assert_eq!(dst, before);
}

fn argb(a: u32, r: u32, g: u32, b: u32) -> u32 {
    (a << 24) | (r << 16) | (g << 8) | b
}

#[test]
fn one_pixel_over_another() {
    // 0x40 + (0x80 * (255 - 0x40) + 127) / 255 on every channel.
    assert_eq!(
        blend_pixel_over(0x4040_4040, 0x8080_8080),
        argb(0xA0, 0xA0, 0xA0, 0xA0)
    );
    assert_eq!(blend_pixel_over(0, 0x1234_5678), 0x1234_5678);
    assert_eq!(blend_pixel_over(0xFF01_0203, 0xFFFF_FFFF), 0xFF01_0203);
    // An unpremultiplied source saturates rather than wrapping.
    assert_eq!(blend_pixel_over(0x00FF_FFFF, 0xFFFF_FFFF), 0xFFFF_FFFF);
}

#[test]
fn modulation_scales_every_channel() {
    assert_eq!(modulate_pixel(0xFF80_4020, 255), 0xFF80_4020);
    assert_eq!(modulate_pixel(0xFF80_4020, 0), 0);
    assert_eq!(modulate_pixel(0xFF80_4020, 128), 0x8040_2010);
}

#[test]
fn plane_alpha_rounds_to_eight_bits() {
    assert_eq!(plane_alpha8(0xFFFF), 255);
    assert_eq!(plane_alpha8(0), 0);
    assert_eq!(plane_alpha8(0x8000), 128);
    assert_eq!(plane_alpha8(128), 0);
    assert_eq!(plane_alpha8(129), 1);
}

#[test]
fn two_formats_are_supported_and_one_is_opaque() {
    assert!(format_supported(fourcc::ARGB8888));
    assert!(format_supported(fourcc::XRGB8888));
    assert!(!format_supported(fourcc::NV12));
    assert!(source_is_opaque(fourcc::XRGB8888));
    assert!(!source_is_opaque(fourcc::ARGB8888));
}

#[test]
fn source_indices_are_nearest_neighbours() {
    let picked: Vec<u32> = (0..4).map(|i| map_src_index(i, 4, 2)).collect();
    assert_eq!(picked, vec![0, 0, 1, 1]);
    let shrunk: Vec<u32> = (0..2).map(|i| map_src_index(i, 2, 4)).collect();
    assert_eq!(shrunk, vec![0, 2]);
    assert_eq!(map_src_index(0, 1, 9), 0);
}

#[test]
fn a_clipped_axis_keeps_what_is_inside_both() {
    let range = clip_axis(-2, 4, 10, 0, 4, 4).expect("two pixels are inside");
    assert_eq!((range.dst_start, range.dst_end), (0, 2));
    assert_eq!(clip_axis(10, 4, 10, 0, 4, 4), None);
    assert_eq!(clip_axis(0, 0, 10, 0, 4, 4), None);
}

/// A buffer of `w * h` pixels with `pad` bytes behind every row.
fn scanout(w: u32, h: u32, pad: u32, fb_id: u32) -> ScanoutBuffer {
    let stride = w * 4 + pad;
    ScanoutBuffer {
        stride,
        data: vec![0xEE; (stride * h) as usize],
        fb_id: Some(fb_id),
    }
}

#[test]
fn painting_lands_in_the_armed_buffer() {
    let mut canvas = CompositeCanvas::create(scanout(2, 2, 4, 7), scanout(2, 2, 4, 8), 2, 2);
    assert_eq!((canvas.width(), canvas.height()), (2, 2));
    let first = canvas.fb_id();
    canvas.begin_frame();
    let second = canvas.fb_id();
    assert_ne!(first, second, "each frame paints the other buffer");

    canvas.clear();
    let pixels = solid(1, 1, 0xFF12_3456);
    canvas.blend(
        &src(&pixels, 1, 1, fourcc::ARGB8888),
        whole(1, 1),
        CompositeRect {
            x: 1,
            y: 1,
            w: 1,
            h: 1,
        },
    );
    canvas.flush();
    assert_eq!(canvas.back_pixel(1, 1), 0xFF12_3456);
    assert_eq!(canvas.back_pixel(0, 0), 0);
    assert_eq!(canvas.back_pixel(2, 0), 0, "outside the canvas");

    canvas.clear_rect(CompositeRect {
        x: 1,
        y: 1,
        w: 1,
        h: 1,
    });
    canvas.flush();
    assert_eq!(canvas.back_pixel(1, 1), 0, "what was painted is gone");
    canvas.begin_frame();
    assert_eq!(canvas.fb_id(), first);
}

#[test]
fn a_forgotten_canvas_is_not_armable() {
    let mut canvas = CompositeCanvas::create(scanout(2, 1, 0, 7), scanout(2, 1, 0, 8), 2, 1);
    assert!(canvas.armable());
    canvas.forget();
    assert!(!canvas.armable());
    assert_eq!(canvas.fb_id(), None);
    assert_eq!(canvas.back_pixel(0, 0), 0);
}
