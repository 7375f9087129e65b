//! Scanning a cursor out as an ordinary layer.
//!
//! For hardware with no cursor-type plane: the sprite goes into a buffer of its
//! own and the scene places it like anything else.

use core::time::Duration;
use vstd::arithmetic::div_mod::lemma_fundamental_div_mod;
use vstd::prelude::*;
use crate::canvas::{lane, lemma_position, ScanoutBuffer};
use crate::dumb::{copy_bytes, errno, DumbError};
use crate::errno::{Errno, EINVAL};
use crate::fourcc::{ARGB8888, MOD_LINEAR};
use crate::source::{
    AcquiredBuffer, BindingModel, DamageRect, LayerBufferSource, MapAccess, Mapping, SourceError,
    SourceFormat,
};
use crate::time::{duration_nanos, saturated, Timestamp};

verus! {

/// One frame of a cursor: premultiplied `0xAARRGGBB` pixels, row by row.
#[derive(Debug)]
pub struct CursorFrame {
    /// The pixels.
    pub pixels: Vec<u32>,
    /// Width in pixels.
    pub width: u32,
    /// Height in pixels.
    pub height: u32,
    /// Hotspot column.
    pub xhot: u32,
    /// Hotspot row.
    pub yhot: u32,
    /// How long the frame is shown.
    pub delay: Duration,
}

impl CursorFrame {
    /// There is one pixel per position.
    pub open spec fn well_formed(&self) -> bool {
        self.pixels@.len() == self.width * self.height
    }
}

/// A cursor: one frame, or an animation of several.
#[derive(Debug)]
pub struct Cursor {
    /// The frames, in order.
    pub frames: Vec<CursorFrame>,
}

impl Cursor {
    /// There is a frame, and every frame has its pixels.
    pub open spec fn well_formed(&self) -> bool {
        &&& self.frames@.len() > 0
        &&& forall|i: int| 0 <= i < self.frames@.len() ==> (#[trigger] self.frames@[i]).well_formed()
    }

    /// The frame with this index, or the first.
    pub open spec fn frame_or_first(&self, index: int) -> CursorFrame {
        if index < self.frames@.len() {
            self.frames@[index]
        } else {
            self.frames@[0]
        }
    }

    /// A static cursor from raw pixels. Refuses a pixel count that does not
    /// match the dimensions.
    pub fn from_argb(pixels: Vec<u32>, width: u32, height: u32, xhot: u32, yhot: u32) -> (cursor: Result<
        Cursor,
        SourceError,
    >)
        ensures
            if pixels@.len() == width * height {
                &&& cursor matches Ok(cursor) && cursor.well_formed() && cursor.frames@.len() == 1
                    && cursor.frames@[0].pixels == pixels && cursor.frames@[0].width == width
                    && cursor.frames@[0].height == height && cursor.frames@[0].xhot == xhot
                    && cursor.frames@[0].yhot == yhot && duration_nanos(cursor.frames@[0].delay)
                    == 0
            } else {
                cursor == Err::<Cursor, SourceError>(SourceError::Failed(Errno { raw: EINVAL }))
            },
    {
        assert(0 <= width * height <= u32::MAX * u32::MAX) by (nonlinear_arith)
            requires
                0 <= width <= u32::MAX,
                0 <= height <= u32::MAX,
        ;
        if pixels.len() as u64 != width as u64 * height as u64 {
            return Err(SourceError::Failed(Errno::new(EINVAL)));
        }
        let mut frames: Vec<CursorFrame> = Vec::new();
        frames.push(
            CursorFrame { pixels, width, height, xhot, yhot, delay: Duration::from_nanos(0) },
        );
        Ok(Cursor { frames })
    }

    /// Whether `extent` is the least that holds every frame, at least one pixel.
    pub open spec fn is_extent(&self, extent: (u32, u32)) -> bool {
        &&& extent.0 >= 1
        &&& extent.1 >= 1
        &&& forall|i: int|
            0 <= i < self.frames@.len() ==> (#[trigger] self.frames@[i]).width <= extent.0
                && self.frames@[i].height <= extent.1
        &&& extent.0 == 1 || exists|i: int|
            0 <= i < self.frames@.len() && (#[trigger] self.frames@[i]).width == extent.0
        &&& extent.1 == 1 || exists|i: int|
            0 <= i < self.frames@.len() && (#[trigger] self.frames@[i]).height == extent.1
    }

    /// The size of the buffer this cursor needs: that of its largest frame in
    /// each dimension.
    pub fn extent(&self) -> (extent: (u32, u32))
        ensures
            self.is_extent(extent),
    {
        let mut width: u32 = 1;
        let mut height: u32 = 1;
        let mut i: usize = 0;
        while i < self.frames.len()
            invariant
                0 <= i <= self.frames@.len(),
                width >= 1,
                height >= 1,
                forall|j: int|
                    0 <= j < i ==> (#[trigger] self.frames@[j]).width <= width
                        && self.frames@[j].height <= height,
                width == 1 || exists|j: int|
                    0 <= j < i && (#[trigger] self.frames@[j]).width == width,
                height == 1 || exists|j: int|
                    0 <= j < i && (#[trigger] self.frames@[j]).height == height,
            decreases self.frames@.len() - i,
        {
            let ghost w = width;
            let ghost h = height;
            if self.frames[i].width > width {
                width = self.frames[i].width;
            }
            if self.frames[i].height > height {
                height = self.frames[i].height;
            }
            proof {
                assert(self.frames@[i as int].width <= width && self.frames@[i as int].height
                    <= height);
                if width == w && w != 1 {
                    let j = choose|j: int| 0 <= j < i && (#[trigger] self.frames@[j]).width == w;
                    assert(self.frames@[j].width == width);
                }
                if height == h && h != 1 {
                    let j = choose|j: int| 0 <= j < i && (#[trigger] self.frames@[j]).height == h;
                    assert(self.frames@[j].height == height);
                }
            }
            i += 1;
        }
        (width, height)
    }
}

/// One byte of a frame painted into rows of `stride` bytes: a byte of the pixel
/// it covers, zero beside and below the frame.
pub open spec fn painted_byte(
    i: int,
    stride: int,
    pixels: Seq<u32>,
    width: int,
    height: int,
    columns: int,
) -> int {
    let row = i / stride;
    let offset = i % stride;
    if row < height && offset < columns * 4 && row * width + offset / 4 < pixels.len() {
        lane(pixels[row * width + offset / 4] as int, offset % 4)
    } else {
        0
    }
}

/// How many columns of a frame a buffer shows.
pub open spec fn shown_columns(width: int, buffer_width: int) -> int {
    if width < buffer_width {
        width
    } else {
        buffer_width
    }
}

/// A buffer's bytes with a frame painted over all its rows, as far as it has
/// them.
pub open spec fn painted_over(
    data: Seq<u8>,
    stride: int,
    rows: int,
    pixels: Seq<u32>,
    width: int,
    height: int,
    buffer_width: int,
) -> Seq<u8> {
    if stride <= 0 {
        data
    } else {
        Seq::new(
            data.len(),
            |i: int|
                if i / stride < rows && (i / stride) * stride + stride <= data.len() {
                    painted_byte(
                        i,
                        stride,
                        pixels,
                        width,
                        height,
                        shown_columns(width, buffer_width),
                    ) as u8
                } else {
                    data[i]
                },
        )
    }
}

/// Whether a buffer shows the pixel of a frame at a column and a row: its four
/// bytes, least first.
pub open spec fn shows_pixel(
    data: Seq<u8>,
    stride: int,
    pixels: Seq<u32>,
    width: int,
    x: int,
    y: int,
) -> bool {
    let at = y * stride + x * 4;
    let pixel = pixels[y * width + x] as int;
    data[at] + data[at + 1] * 0x100 + data[at + 2] * 0x1_0000 + data[at + 3] * 0x100_0000 == pixel
}

/// The byte of a pixel at an index counted from the blue end.
fn pixel_byte(pixel: u32, index: u32) -> (byte: u8)
    requires
        index < 4,
    ensures
        byte == lane(pixel as int, index as int),
{
    if index == 0 {
        (pixel % 0x100) as u8
    } else if index == 1 {
        ((pixel / 0x100) % 0x100) as u8
    } else if index == 2 {
        ((pixel / 0x1_0000) % 0x100) as u8
    } else {
        ((pixel / 0x100_0000) % 0x100) as u8
    }
}

/// Paint a frame into a buffer of `rows` rows, clearing the rest of every row.
///
/// A smaller frame following a larger one would otherwise keep the larger one's
/// edges lit around it. Rows the buffer does not have are not painted.
pub fn blit(
    buffer: &mut ScanoutBuffer,
    rows: u32,
    pixels: &Vec<u32>,
    width: u32,
    height: u32,
    buffer_width: u32,
)
    ensures
        final(buffer).data@ == painted_over(
            old(buffer).data@,
            old(buffer).stride as int,
            rows as int,
            pixels@,
            width as int,
            height as int,
            buffer_width as int,
        ),
        *final(buffer) == (ScanoutBuffer { data: final(buffer).data, ..*old(buffer) }),
        forall|x: int, y: int|
            0 <= x < width && x < buffer_width && 0 <= y < height && y < rows && x * 4 + 4 <= old(
                buffer,
            ).stride && y * old(buffer).stride + old(buffer).stride <= old(buffer).data@.len() && y
                * width + x < pixels@.len() ==> #[trigger] shows_pixel(
                final(buffer).data@,
                old(buffer).stride as int,
                pixels@,
                width as int,
                x,
                y,
            ),
{
    if buffer.stride == 0 {
        return;
    }
    let columns: u32 = if width < buffer_width { width } else { buffer_width };
    let step: usize = buffer.stride as usize;
    let len: usize = buffer.data.len();
    let count: usize = pixels.len();
    let ghost start = buffer.data@;
    let ghost stride = buffer.stride as int;
    let mut row: u32 = 0;
    let mut base: usize = 0;
    while row < rows && base <= len && step <= len - base
        invariant
            0 <= row <= rows,
            base == row * stride,
            step == stride,
            0 < stride,
            stride == old(buffer).stride,
            len == start.len(),
            start == old(buffer).data@,
            count == pixels@.len(),
            buffer.data@.len() == start.len(),
            columns == shown_columns(width as int, buffer_width as int),
            base <= len,
            forall|i: int|
                0 <= i < start.len() ==> #[trigger] buffer.data@[i] == if i / stride < row {
                    painted_byte(
                        i,
                        stride,
                        pixels@,
                        width as int,
                        height as int,
                        columns as int,
                    ) as u8
                } else {
                    start[i]
                },
            *buffer == (ScanoutBuffer { data: buffer.data, ..*old(buffer) }),
        decreases rows - row,
    {
        let mut offset: usize = 0;
        while offset < step
            invariant
                0 <= offset <= step,
                0 <= row < rows,
                base == row * stride,
                step == stride,
                0 < stride,
                stride == old(buffer).stride,
                len == start.len(),
                count == pixels@.len(),
                base + step <= len,
                buffer.data@.len() == start.len(),
                columns == shown_columns(width as int, buffer_width as int),
                forall|i: int|
                    0 <= i < start.len() ==> #[trigger] buffer.data@[i] == if i / stride < row || (i
                        / stride == row && i % stride < offset) {
                        painted_byte(
                            i,
                            stride,
                            pixels@,
                            width as int,
                            height as int,
                            columns as int,
                        ) as u8
                    } else {
                        start[i]
                    },
                *buffer == (ScanoutBuffer { data: buffer.data, ..*old(buffer) }),
            decreases step - offset,
        {
            proof {
                lemma_position(row as int, stride, offset as int);
            }
            assert(0 <= row * width <= u32::MAX * u32::MAX) by (nonlinear_arith)
                requires
                    0 <= row <= u32::MAX,
                    0 <= width <= u32::MAX,
            ;
            let at: u128 = row as u128 * width as u128 + (offset / 4) as u128;
            let value: u8 = if row < height && offset / 4 < columns as usize && at < count as u128 {
                pixel_byte(pixels[at as usize], (offset % 4) as u32)
            } else {
                0
            };
            buffer.data[base + offset] = value;
            offset += 1;
        }
        row += 1;
        assert(row * stride == (row - 1) * stride + stride) by (nonlinear_arith);
        base = base + step;
    }
    proof {
        assert forall|i: int| #![trigger buffer.data@[i]] 0 <= i < start.len() implies (i / stride < row)
            == (i / stride < rows && (i / stride) * stride + stride <= start.len()) by {
            let r = i / stride;
            lemma_fundamental_div_mod(i, stride);
            assert(stride * r == r * stride) by (nonlinear_arith);
            if r < row {
                assert(r * stride + stride <= row * stride) by (nonlinear_arith)
                    requires
                        r < row,
                        0 < stride,
                ;
            } else if row < rows {
                assert(r * stride >= row * stride) by (nonlinear_arith)
                    requires
                        r >= row,
                        0 < stride,
                ;
            }
        }
        assert(buffer.data@ =~= painted_over(
            start,
            stride,
            rows as int,
            pixels@,
            width as int,
            height as int,
            buffer_width as int,
        ));
        assert forall|x: int, y: int|
            0 <= x < width && x < buffer_width && 0 <= y < height && y < rows && x * 4 + 4 <= stride
                && y * stride + stride <= start.len() && y * width + x < pixels@.len()
                implies #[trigger] shows_pixel(
            buffer.data@,
            stride,
            pixels@,
            width as int,
            x,
            y,
        ) by {
            law_frames_are_painted_pixel_for_pixel(
                start,
                stride,
                rows as int,
                pixels@,
                width as int,
                height as int,
                buffer_width as int,
                x,
                y,
            );
        }
    }
}

/// A cursor presented as a scene layer.
#[derive(Debug)]
pub struct CursorSource {
    /// The cursor.
    pub cursor: Cursor,
    /// The buffer it is painted into.
    pub buffer: ScanoutBuffer,
    /// The buffer's shape.
    pub format: SourceFormat,
    /// The hotspot of the frame currently painted.
    pub hotspot: (u32, u32),
    /// Which frame is in the buffer.
    pub painted: Option<usize>,
    /// When the animation started: at the first look at its clock.
    pub started: Option<Timestamp>,
    /// Which frame the animation's clock is on; `None` for a static cursor.
    pub on_clock: Option<usize>,
    /// Reported on the next acquire, then cleared.
    pub pending_damage: Vec<DamageRect>,
}

/// Whether `after` is `before` with a frame painted.
pub open spec fn painted_frame(before: CursorSource, after: CursorSource, index: usize) -> bool {
    let frame = before.cursor.frame_or_first(index as int);
    &&& after.buffer.data@ == painted_over(
        before.buffer.data@,
        before.buffer.stride as int,
        before.format.height as int,
        frame.pixels@,
        frame.width as int,
        frame.height as int,
        before.format.width as int,
    )
    &&& after == (CursorSource {
        buffer: ScanoutBuffer { data: after.buffer.data, ..before.buffer },
        hotspot: (frame.xhot, frame.yhot),
        painted: Some(index),
        ..before
    })
}

/// Whether `after` is `before` brought up to the clock: the frame that is due is
/// painted, and the damage owed is the whole frame.
pub open spec fn refreshed(before: CursorSource, after: CursorSource) -> bool {
    match before.frame_due() {
        Some(index) => {
            &&& after.pending_damage@.len() == 0
            &&& painted_frame(
                before,
                CursorSource { pending_damage: before.pending_damage, ..after },
                index,
            )
        },
        _ => after == before,
    }
}

/// What handing out the framebuffer does: the damage owed goes with it.
pub open spec fn handed_out(
    before: CursorSource,
    after: CursorSource,
    acquired: Result<AcquiredBuffer, SourceError>,
) -> bool {
    match before.buffer.fb_id {
        Some(fb_id) => {
            &&& acquired matches Ok(buffer) && buffer.fb_id == fb_id && buffer.token == 0
                && buffer.acquire_fence is None && buffer.damage == before.pending_damage
            &&& after.pending_damage@.len() == 0
            &&& after == (CursorSource { pending_damage: after.pending_damage, ..before })
        },
        None => acquired == Err::<AcquiredBuffer, SourceError>(
            SourceError::Failed(Errno { raw: EINVAL }),
        ) && after == before,
    }
}

impl CursorSource {
    /// Wrap a cursor over a buffer allocated at its [`extent`](Cursor::extent),
    /// and paint the first frame.
    pub fn new(cursor: Cursor, allocated: Result<ScanoutBuffer, DumbError>) -> (source: Result<
        Self,
        DumbError,
    >)
        requires
            cursor.frames@.len() > 0,
        ensures
            match allocated {
                Err(error) => source == Err::<CursorSource, DumbError>(error),
                Ok(buffer) => source matches Ok(source) && {
                    &&& source.cursor == cursor
                    &&& source.format.fourcc == ARGB8888
                    &&& source.format.modifier == MOD_LINEAR
                    &&& cursor.is_extent((source.format.width, source.format.height))
                    &&& source.started is None
                    &&& source.on_clock is None
                    &&& source.pending_damage@.len() == 0
                    &&& source.painted == Some(0usize)
                    &&& source.hotspot == (cursor.frames@[0].xhot, cursor.frames@[0].yhot)
                    &&& source.buffer.stride == buffer.stride
                    &&& source.buffer.fb_id == buffer.fb_id
                    &&& source.buffer.data@ == painted_over(
                        buffer.data@,
                        buffer.stride as int,
                        source.format.height as int,
                        cursor.frames@[0].pixels@,
                        cursor.frames@[0].width as int,
                        cursor.frames@[0].height as int,
                        source.format.width as int,
                    )
                },
            },
    {
        let (width, height) = cursor.extent();
        let buffer = match allocated {
            Ok(buffer) => buffer,
            Err(error) => {
                return Err(error);
            },
        };
        let mut source = CursorSource {
            cursor,
            buffer,
            format: SourceFormat { fourcc: ARGB8888, modifier: MOD_LINEAR, width, height },
            hotspot: (0, 0),
            painted: None,
            started: None,
            on_clock: None,
            pending_damage: Vec::new(),
        };
        source.paint(0);
        Ok(source)
    }

    /// Build a static cursor from raw pixels over a freshly allocated buffer.
    pub fn from_argb(
        pixels: Vec<u32>,
        width: u32,
        height: u32,
        xhot: u32,
        yhot: u32,
        allocated: Result<ScanoutBuffer, DumbError>,
    ) -> (source: Result<Self, SourceError>)
        ensures
            if pixels@.len() != width * height {
                source == Err::<CursorSource, SourceError>(SourceError::Failed(Errno { raw: EINVAL }))
            } else {
                match allocated {
                    Err(error) => source == Err::<CursorSource, SourceError>(
                        SourceError::Failed(error.errno_spec()),
                    ),
                    Ok(buffer) => source matches Ok(source) && {
                        &&& source.cursor.frames@.len() == 1
                        &&& source.cursor.frames@[0].pixels == pixels
                        &&& source.cursor.frames@[0].width == width
                        &&& source.cursor.frames@[0].height == height
                        &&& source.cursor.frames@[0].xhot == xhot
                        &&& source.cursor.frames@[0].yhot == yhot
                        &&& duration_nanos(source.cursor.frames@[0].delay) == 0
                        &&& source.format == (SourceFormat {
                            fourcc: ARGB8888,
                            modifier: MOD_LINEAR,
                            width: if width == 0 {
                                1
                            } else {
                                width
                            },
                            height: if height == 0 {
                                1
                            } else {
                                height
                            },
                        })
                        &&& source.hotspot == (xhot, yhot)
                        &&& source.painted == Some(0usize)
                        &&& source.started is None
                        &&& source.on_clock is None
                        &&& source.pending_damage@.len() == 0
                        &&& source.buffer.stride == buffer.stride
                        &&& source.buffer.fb_id == buffer.fb_id
                        &&& source.buffer.data@ == painted_over(
                            buffer.data@,
                            buffer.stride as int,
                            source.format.height as int,
                            pixels@,
                            width as int,
                            height as int,
                            source.format.width as int,
                        )
                    },
                }
            },
    {
        let cursor = match Cursor::from_argb(pixels, width, height, xhot, yhot) {
            Ok(cursor) => cursor,
            Err(error) => {
                return Err(error);
            },
        };
        assert(cursor.frames@[0].width == width);
        match CursorSource::new(cursor, allocated) {
            Ok(source) => Ok(source),
            Err(error) => Err(SourceError::Failed(errno(&error))),
        }
    }

    /// Where the pointer actually points, in buffer pixels.
    pub fn hotspot(&self) -> (hotspot: (u32, u32))
        ensures
            hotspot == self.hotspot,
    {
        self.hotspot
    }

    /// The buffer's size, which is the largest frame's.
    pub fn size(&self) -> (size: (u32, u32))
        ensures
            size == (self.format.width, self.format.height),
    {
        (self.format.width, self.format.height)
    }

    /// The cursor being shown.
    pub fn cursor(&self) -> (cursor: &Cursor)
        ensures
            *cursor == self.cursor,
    {
        &self.cursor
    }

    /// How long the animation has run at `now`: it starts when first asked. A
    /// static cursor has no clock.
    pub fn run_time(&mut self, now: Timestamp) -> (elapsed: Option<Duration>)
        ensures
            match elapsed {
                Some(elapsed) => {
                    &&& old(self).cursor.frames@.len() > 1
                    &&& *final(self) == (CursorSource {
                        started: match old(self).started {
                            Some(started) => Some(started),
                            None => Some(now),
                        },
                        ..*old(self)
                    })
                    &&& duration_nanos(elapsed) == saturated(
                        now.nanos - final(self).started->0.nanos,
                    )
                },
                None => old(self).cursor.frames@.len() <= 1 && *final(self) == *old(self),
            },
    {
        if self.cursor.frames.len() <= 1 {
            return None;
        }
        let started: Timestamp = match self.started {
            Some(started) => started,
            None => now,
        };
        self.started = Some(started);
        Some(now.saturating_duration_since(started))
    }

    /// Say which frame the animation's clock is on.
    pub fn tick(&mut self, index: usize)
        ensures
            *final(self) == (CursorSource { on_clock: Some(index), ..*old(self) }),
    {
        self.on_clock = Some(index);
    }

    /// Paint a frame, clearing what was there. An index past the last paints
    /// the first.
    pub fn paint(&mut self, index: usize)
        requires
            old(self).cursor.frames@.len() > 0,
        ensures
            painted_frame(*old(self), *final(self), index),
            forall|x: int, y: int, at: int|
                #![trigger shows_pixel(final(self).buffer.data@, old(self).buffer.stride as int, old(self).cursor.frames@[at].pixels@, old(self).cursor.frames@[at].width as int, x, y)]
                at == (if index < old(self).cursor.frames@.len() {
                    index as int
                } else {
                    0
                }) && 0 <= x < old(self).cursor.frames@[at].width && x < old(self).format.width && 0
                    <= y < old(self).cursor.frames@[at].height && y < old(self).format.height && x
                    * 4 + 4 <= old(self).buffer.stride && y * old(self).buffer.stride + old(
                    self,
                ).buffer.stride <= old(self).buffer.data@.len() && y * old(
                    self,
                ).cursor.frames@[at].width + x < old(self).cursor.frames@[at].pixels@.len()
                    ==> shows_pixel(
                    final(self).buffer.data@,
                    old(self).buffer.stride as int,
                    old(self).cursor.frames@[at].pixels@,
                    old(self).cursor.frames@[at].width as int,
                    x,
                    y,
                ),
    {
        let at: usize = if index < self.cursor.frames.len() { index } else { 0 };
        let rows: u32 = self.format.height;
        let buffer_width: u32 = self.format.width;
        let width: u32 = self.cursor.frames[at].width;
        let height: u32 = self.cursor.frames[at].height;
        blit(
            &mut self.buffer,
            rows,
            &self.cursor.frames[at].pixels,
            width,
            height,
            buffer_width,
        );
        self.hotspot = (self.cursor.frames[at].xhot, self.cursor.frames[at].yhot);
        self.painted = Some(index);
    }

    /// The frame that has to be painted, if the cursor is animated and the clock
    /// is on another frame than the buffer holds.
    pub open spec fn frame_due(&self) -> Option<usize> {
        match self.on_clock {
            Some(index) if self.cursor.frames@.len() > 1 && self.painted != Some(index) => Some(
                index,
            ),
            _ => None,
        }
    }

    /// The frame that has to be painted, if any.
    pub fn due(&self) -> (index: Option<usize>)
        ensures
            index == self.frame_due(),
    {
        match self.on_clock {
            Some(index) => {
                if self.cursor.frames.len() > 1 && self.painted != Some(index) {
                    Some(index)
                } else {
                    None
                }
            },
            None => None,
        }
    }

    /// Bring the buffer up to the clock: paint the frame that is due, which
    /// changes everything in it.
    fn refresh(&mut self)
        ensures
            refreshed(*old(self), *final(self)),
    {
        if let Some(index) = self.due() {
            self.paint(index);
            self.pending_damage.clear();
        }
    }

    /// Take a buffer allocated against the resumed session's device and paint
    /// the same frame into it. The shape stays.
    pub fn resume_with(&mut self, allocated: Result<ScanoutBuffer, DumbError>) -> (resumed: Result<
        (),
        SourceError,
    >)
        requires
            old(self).cursor.frames@.len() > 0,
        ensures
            match allocated {
                Err(error) => {
                    &&& resumed == Err::<(), SourceError>(SourceError::Failed(error.errno_spec()))
                    &&& final(self).buffer.fb_id is None
                    &&& final(self).buffer.data@.len() == 0
                    &&& final(self).buffer.stride == old(self).buffer.stride
                    &&& *final(self) == (CursorSource { buffer: final(self).buffer, ..*old(self) })
                },
                Ok(buffer) => {
                    &&& resumed == Ok::<(), SourceError>(())
                    &&& painted_frame(
                        CursorSource { buffer, ..*old(self) },
                        *final(self),
                        match old(self).painted {
                            Some(index) => index,
                            None => 0,
                        },
                    )
                },
            },
    {
        self.buffer.forget();
        match allocated {
            Err(error) => Err(SourceError::Failed(errno(&error))),
            Ok(buffer) => {
                self.buffer = buffer;
                let index: usize = match self.painted {
                    Some(index) => index,
                    None => 0,
                };
                self.paint(index);
                Ok(())
            },
        }
    }
}

impl LayerBufferSource for CursorSource {
    /// Paint the frame that is due, and hand out the one framebuffer with the
    /// damage owed.
    fn acquire(&mut self) -> (acquired: Result<AcquiredBuffer, SourceError>)
        ensures
            exists|painted: CursorSource| #[trigger]
                refreshed(*old(self), painted) && handed_out(painted, *final(self), acquired),
    {
        self.refresh();
        assert(refreshed(*old(self), *self));
        let fb_id: u32 = match self.buffer.fb_id {
            Some(fb_id) => fb_id,
            None => {
                return Err(SourceError::Failed(Errno::new(EINVAL)));
            },
        };
        let mut damage: Vec<DamageRect> = Vec::new();
        core::mem::swap(&mut damage, &mut self.pending_damage);
        Ok(AcquiredBuffer { fb_id, token: 0, acquire_fence: None, damage })
    }

    /// Nothing to do: the same buffer goes out next acquire.
    fn release(&mut self, acquired: AcquiredBuffer)
        ensures
            *final(self) == *old(self),
    {
    }

    fn binding_model(&self) -> (model: BindingModel)
        ensures
            model == BindingModel::SceneSubmitsFbId,
    {
        BindingModel::SceneSubmitsFbId
    }

    fn format(&self) -> (format: SourceFormat)
        ensures
            format == self.format,
    {
        self.format
    }

    fn map(&mut self, access: MapAccess) -> (mapping: Result<Mapping, SourceError>)
        ensures
            mapping matches Ok(mapping) && mapping.pixels@ == old(self).buffer.data@
                && mapping.stride == old(self).buffer.stride && mapping.width == old(
                self,
            ).format.width && mapping.height == old(self).format.height,
            *final(self) == *old(self),
    {
        Ok(
            Mapping {
                pixels: copy_bytes(self.buffer.data.as_slice()),
                stride: self.buffer.stride,
                width: self.format.width,
                height: self.format.height,
            },
        )
    }

    /// What was written reaches the buffer, as far as it still has the size that
    /// was mapped.
    fn unmap(&mut self, mapping: Mapping, access: MapAccess)
        ensures
            final(self).buffer.data@ == if access != MapAccess::Read && mapping.pixels@.len() == old(
                self,
            ).buffer.data@.len() {
                mapping.pixels@
            } else {
                old(self).buffer.data@
            },
            *final(self) == (CursorSource {
                buffer: ScanoutBuffer { data: final(self).buffer.data, ..old(self).buffer },
                ..*old(self)
            }),
    {
        if access != MapAccess::Read && mapping.pixels.len() == self.buffer.data.len() {
            self.buffer.data = mapping.pixels;
        }
    }

    /// The old device's buffer is forgotten, and the source has nothing to show
    /// until [`resume_with`](Self::resume_with) is given another.
    fn on_session_resumed(&mut self, device: i32) -> (resumed: Result<(), SourceError>)
        ensures
            resumed == Err::<(), SourceError>(SourceError::Failed(Errno { raw: EINVAL })),
            final(self).buffer.fb_id is None,
            final(self).buffer.data@.len() == 0,
            final(self).buffer.stride == old(self).buffer.stride,
            *final(self) == (CursorSource { buffer: final(self).buffer, ..*old(self) }),
    {
        self.buffer.forget();
        Err(SourceError::Failed(Errno::new(EINVAL)))
    }
}

/// Painting leaves no trace of what the buffer held: two buffers of the same
/// size agree on every row a frame is painted over.
pub proof fn law_painting_leaves_no_halo(
    a: Seq<u8>,
    b: Seq<u8>,
    stride: int,
    rows: int,
    pixels: Seq<u32>,
    width: int,
    height: int,
    buffer_width: int,
    i: int,
)
    requires
        a.len() == b.len(),
        0 < stride,
        0 <= i < a.len(),
        i / stride < rows,
        (i / stride) * stride + stride <= a.len(),
    ensures
        painted_over(a, stride, rows, pixels, width, height, buffer_width)[i] == painted_over(
            b,
            stride,
            rows,
            pixels,
            width,
            height,
            buffer_width,
        )[i],
{
}

/// Painting puts each pixel of a frame where it belongs: the pixel at column `x`
/// and row `y` of the frame, counted by the frame's own width, is what the buffer
/// holds there, its bytes least first. Beside and below the frame the rows are
/// blank, and beyond the last row nothing changes.
pub proof fn law_frames_are_painted_pixel_for_pixel(
    data: Seq<u8>,
    stride: int,
    rows: int,
    pixels: Seq<u32>,
    width: int,
    height: int,
    buffer_width: int,
    x: int,
    y: int,
)
    requires
        0 <= x,
        0 <= y,
        0 <= width,
        0 <= height,
        0 <= buffer_width,
        x * 4 + 4 <= stride,
        y * stride + stride <= data.len(),
    ensures
        ({
            let painted = painted_over(data, stride, rows, pixels, width, height, buffer_width);
            let at = y * stride + x * 4;
            &&& painted.len() == data.len()
            &&& x < width && x < buffer_width && y < height && y < rows && y * width + x
                < pixels.len() ==> {
                &&& painted[at] == pixels[y * width + x] % 0x100
                &&& painted[at + 1] == pixels[y * width + x] / 0x100 % 0x100
                &&& painted[at + 2] == pixels[y * width + x] / 0x1_0000 % 0x100
                &&& painted[at + 3] == pixels[y * width + x] / 0x100_0000 % 0x100
                &&& shows_pixel(painted, stride, pixels, width, x, y)
            }
            &&& y < rows && (x >= width || x >= buffer_width || y >= height) ==> painted[at] == 0
                && painted[at + 1] == 0 && painted[at + 2] == 0 && painted[at + 3] == 0
            &&& y >= rows ==> painted[at] == data[at] && painted[at + 1] == data[at + 1]
                && painted[at + 2] == data[at + 2] && painted[at + 3] == data[at + 3]
        }),
{
    let painted = painted_over(data, stride, rows, pixels, width, height, buffer_width);
    let at = y * stride + x * 4;
    assert(0 <= y * stride) by (nonlinear_arith)
        requires
            0 <= y,
            0 <= stride,
    ;
    lemma_position(y, stride, x * 4);
    lemma_position(y, stride, x * 4 + 1);
    lemma_position(y, stride, x * 4 + 2);
    lemma_position(y, stride, x * 4 + 3);
    assert(at / stride == y && at % stride == x * 4);
    assert((at + 1) / stride == y && (at + 1) % stride == x * 4 + 1);
    assert((at + 2) / stride == y && (at + 2) % stride == x * 4 + 2);
    assert((at + 3) / stride == y && (at + 3) % stride == x * 4 + 3);
    if x < width && x < buffer_width && y < height && y < rows && y * width + x < pixels.len() {
        let pixel = pixels[y * width + x];
        assert((x * 4) / 4 == x && (x * 4) % 4 == 0);
        assert((x * 4 + 1) / 4 == x && (x * 4 + 1) % 4 == 1);
        assert((x * 4 + 2) / 4 == x && (x * 4 + 2) % 4 == 2);
        assert((x * 4 + 3) / 4 == x && (x * 4 + 3) % 4 == 3);
        assert(0 <= y * width) by (nonlinear_arith)
            requires
                0 <= y,
                0 <= width,
        ;
        assert(painted[at] == pixel % 0x100);
        assert(painted[at + 1] == pixel / 0x100 % 0x100);
        assert(painted[at + 2] == pixel / 0x1_0000 % 0x100);
        assert(painted[at + 3] == pixel / 0x100_0000 % 0x100);
        assert(pixel % 0x100u32 + (pixel / 0x100u32 % 0x100u32) * 0x100u32 + (pixel / 0x1_0000u32
            % 0x100u32) * 0x1_0000u32 + (pixel / 0x100_0000u32 % 0x100u32) * 0x100_0000u32 == pixel)
            by (bit_vector);
    }
}

/// A repaint is due exactly where an animation's clock is on a frame the buffer
/// does not hold; a cursor of one frame is never due, whatever its clock says.
pub proof fn law_only_an_animation_is_ever_due(source: CursorSource)
    ensures
        source.cursor.frames@.len() <= 1 ==> source.frame_due() is None,
        source.on_clock is None ==> source.frame_due() is None,
        source.on_clock == source.painted ==> source.frame_due() is None,
        source.cursor.frames@.len() > 1 && source.on_clock is Some && source.on_clock
            != source.painted ==> source.frame_due() == source.on_clock,
{
}

/// Bringing a cursor up to its clock shows the frame that is due: every pixel of
/// it, its own hotspot, and the whole frame as damage. Where none is due nothing
/// changes.
pub proof fn law_a_due_frame_is_shown(before: CursorSource, after: CursorSource, x: int, y: int)
    requires
        refreshed(before, after),
    ensures
        before.frame_due() is None ==> after == before,
        before.frame_due() matches Some(index) ==> {
            let frame = before.cursor.frames@[if index < before.cursor.frames@.len() {
                index as int
            } else {
                0
            }];
            let stride = before.buffer.stride;
            &&& after.hotspot == (frame.xhot, frame.yhot)
            &&& after.painted == Some(index)
            &&& after.pending_damage@.len() == 0
            &&& after.format == before.format
            &&& after.cursor == before.cursor
            &&& after.buffer.fb_id == before.buffer.fb_id
            &&& after.buffer.stride == stride
            &&& 0 <= x < frame.width && x < before.format.width && 0 <= y < frame.height && y
                < before.format.height && x * 4 + 4 <= stride && y * stride + stride
                <= before.buffer.data@.len() && y * frame.width + x < frame.pixels@.len()
                ==> shows_pixel(
                after.buffer.data@,
                stride as int,
                frame.pixels@,
                frame.width as int,
                x,
                y,
            )
        },
{
    if let Some(index) = before.frame_due() {
        let frame = before.cursor.frames@[if index < before.cursor.frames@.len() {
            index as int
        } else {
            0
        }];
        let stride = before.buffer.stride;
        if 0 <= x < frame.width && x < before.format.width && 0 <= y < frame.height && y
            < before.format.height && x * 4 + 4 <= stride && y * stride + stride
            <= before.buffer.data@.len() && y * frame.width + x < frame.pixels@.len() {
            law_frames_are_painted_pixel_for_pixel(
                before.buffer.data@,
                stride as int,
                before.format.height as int,
                frame.pixels@,
                frame.width as int,
                frame.height as int,
                before.format.width as int,
                x,
                y,
            );
        }
    }
}

/// Handing a cursor out gives its framebuffer and the damage owed, once; without
/// a framebuffer it fails.
pub proof fn law_a_cursor_hands_out_its_framebuffer(
    before: CursorSource,
    after: CursorSource,
    acquired: Result<AcquiredBuffer, SourceError>,
)
    requires
        handed_out(before, after, acquired),
    ensures
        acquired is Ok <==> before.buffer.fb_id is Some,
        acquired matches Ok(buffer) ==> Some(buffer.fb_id) == before.buffer.fb_id
            && buffer.damage@ == before.pending_damage@ && buffer.acquire_fence is None
            && after.pending_damage@.len() == 0,
        acquired matches Err(error) ==> error == SourceError::Failed(Errno { raw: 22 }),
        after.buffer == before.buffer,
        after.painted == before.painted,
        after.hotspot == before.hotspot,
{
}

/// Painting a frame moves the hotspot to its own, records which frame is up, and
/// leaves the cursor, the shape and the buffer's identity alone.
pub proof fn law_a_painted_frame_brings_its_hotspot(
    before: CursorSource,
    after: CursorSource,
    index: usize,
)
    requires
        painted_frame(before, after, index),
        index < before.cursor.frames@.len(),
    ensures
        after.hotspot.0 == before.cursor.frames@[index as int].xhot,
        after.hotspot.1 == before.cursor.frames@[index as int].yhot,
        after.painted == Some(index),
        after.cursor == before.cursor,
        after.format == before.format,
        after.buffer.fb_id == before.buffer.fb_id,
        after.buffer.stride == before.buffer.stride,
        after.buffer.data@.len() == before.buffer.data@.len(),
        after.pending_damage == before.pending_damage,
{
}

/// A cursor's extent holds every frame and is no larger than it has to be: no
/// smaller width or height would hold them all, short of a single pixel.
pub proof fn law_an_extent_is_the_least_that_holds_every_frame(
    cursor: Cursor,
    extent: (u32, u32),
    other: (u32, u32),
    i: int,
)
    requires
        cursor.is_extent(extent),
    ensures
        extent.0 >= 1 && extent.1 >= 1,
        0 <= i < cursor.frames@.len() ==> cursor.frames@[i].width <= extent.0
            && cursor.frames@[i].height <= extent.1,
        other.0 >= 1 && (forall|k: int|
            0 <= k < cursor.frames@.len() ==> (#[trigger] cursor.frames@[k]).width <= other.0)
            ==> extent.0 <= other.0,
        other.1 >= 1 && (forall|k: int|
            0 <= k < cursor.frames@.len() ==> (#[trigger] cursor.frames@[k]).height <= other.1)
            ==> extent.1 <= other.1,
{
}

/// A frame is found by its index, and an index past the last finds the first.
pub proof fn law_a_frame_is_found_by_its_index(cursor: Cursor, index: int)
    requires
        cursor.well_formed(),
        0 <= index,
    ensures
        index < cursor.frames@.len() ==> cursor.frame_or_first(index) == cursor.frames@[index],
        index >= cursor.frames@.len() ==> cursor.frame_or_first(index) == cursor.frames@[0],
        cursor.frame_or_first(index).pixels@.len() == cursor.frame_or_first(index).width
            * cursor.frame_or_first(index).height,
{
    if index < cursor.frames@.len() {
        assert(cursor.frames@[index].well_formed());
    } else {
        assert(cursor.frames@[0].well_formed());
    }
}

} // verus!
