//! Where a layer's content comes from.

use vstd::prelude::*;
use crate::errno::Errno;
use crate::sync::SyncFence;

verus! {

/// How the scene and a source divide responsibility for `FB_ID`.
#[derive(Debug, Clone, Copy, PartialEq, Eq, PartialOrd, Ord, Hash, Structural)]
pub enum BindingModel {
    /// The scene writes `FB_ID` into the atomic commit.
    SceneSubmitsFbId,
    /// The driver binds a producer directly to the plane, and the scene must
    /// not write `FB_ID` for this layer.
    DriverOwnsBinding,
}

impl Default for BindingModel {
    fn default() -> (model: Self)
        ensures
            model == BindingModel::SceneSubmitsFbId,
    {
        BindingModel::SceneSubmitsFbId
    }
}

/// What a source's buffer intrinsically is, not where it is shown.
#[derive(Debug, Clone, Copy, PartialEq, Eq, Structural)]
pub struct SourceFormat {
    /// DRM `FourCC`.
    pub fourcc: u32,
    /// Layout modifier.
    pub modifier: u64,
    /// Buffer width in pixels.
    pub width: u32,
    /// Buffer height in pixels.
    pub height: u32,
}

impl Default for SourceFormat {
    fn default() -> (format: Self)
        ensures
            format == (SourceFormat { fourcc: 0, modifier: 0, width: 0, height: 0 }),
    {
        SourceFormat { fourcc: 0, modifier: 0, width: 0, height: 0 }
    }
}

/// A region of a buffer that changed since the slot was last scanned out.
#[derive(Debug, Clone, Copy, PartialEq, Eq, Structural)]
pub struct DamageRect {
    /// Left edge.
    pub x: i32,
    /// Top edge.
    pub y: i32,
    /// Width.
    pub w: u32,
    /// Height.
    pub h: u32,
}

impl Default for DamageRect {
    fn default() -> (rect: Self)
        ensures
            rect == (DamageRect { x: 0, y: 0, w: 0, h: 0 }),
    {
        DamageRect { x: 0, y: 0, w: 0, h: 0 }
    }
}

/// A buffer handed over by [`LayerBufferSource::acquire`], valid until the
/// matching release.
///
/// Move-only: handing a buffer back is a move, and using it afterwards does not
/// compile.
#[derive(Debug)]
pub struct AcquiredBuffer {
    /// The framebuffer the scene writes to the plane's `FB_ID`. Zero for a
    /// driver-owned binding.
    pub fb_id: u32,
    /// A source-private token, echoed back verbatim on release.
    pub token: u64,
    /// A render-done fence: the pixels are valid only once it signals.
    pub acquire_fence: Option<SyncFence>,
    /// Per-frame dirty regions. Empty means full-frame.
    pub damage: Vec<DamageRect>,
}

impl Default for AcquiredBuffer {
    fn default() -> (buffer: Self)
        ensures
            buffer.fb_id == 0,
            buffer.token == 0,
            buffer.acquire_fence is None,
            buffer.damage@.len() == 0,
    {
        AcquiredBuffer { fb_id: 0, token: 0, acquire_fence: None, damage: Vec::new() }
    }
}

/// Why an acquire did not produce a buffer.
#[derive(Debug, Clone, Copy, PartialEq, Eq, Structural)]
#[non_exhaustive]
pub enum SourceError {
    /// Flow control, not a failure: the source has no frame this vblank. The
    /// scene skips the layer and asks again next frame.
    WouldBlock,
    /// The operation is not supported by this source.
    Unsupported,
    /// A real failure. Aborts the commit.
    Failed(Errno),
}

/// How a CPU view of a buffer will be used.
#[derive(Debug, Clone, Copy, PartialEq, Eq, Structural)]
pub enum MapAccess {
    /// Reading only.
    Read,
    /// Writing only.
    Write,
    /// Both.
    ReadWrite,
}

/// A CPU view of a buffer's pixels.
#[derive(Debug)]
pub struct Mapping {
    /// The bytes.
    pub pixels: Vec<u8>,
    /// Distance between row starts.
    pub stride: u32,
    /// Width in pixels.
    pub width: u32,
    /// Height in pixels.
    pub height: u32,
}

/// A view of a buffer's DMA-BUF planes. The descriptors stay the source's and
/// are valid only until the matching release.
#[derive(Debug)]
pub struct DmaBufDesc {
    /// One descriptor per plane.
    pub fds: Vec<i32>,
    /// Byte offset of each plane.
    pub offsets: Vec<u32>,
    /// Row stride of each plane.
    pub pitches: Vec<u32>,
    /// The buffer's shape.
    pub format: SourceFormat,
}

/// Where a layer's content comes from.
pub trait LayerBufferSource {
    /// Produce this frame's buffer.
    fn acquire(&mut self) -> Result<AcquiredBuffer, SourceError>;

    /// Return a buffer to the free pool. There is deliberately no error channel.
    fn release(&mut self, acquired: AcquiredBuffer);

    /// Release with the out-fence of the commit that displaced this buffer.
    ///
    /// The default drops the fence and releases.
    fn release_with_fence(&mut self, acquired: AcquiredBuffer, release_fence: Option<SyncFence>) {
        self.release(acquired);
    }

    /// Whether this source wants the per-buffer release fence.
    fn wants_release_fence(&self) -> (wants: bool)
        default_ensures
            !wants,
    {
        false
    }

    /// Whether a producer submitted something new since the last commit.
    ///
    /// A source that cannot tell must say it did, or a real update is skipped.
    fn has_fresh_content(&self) -> (fresh: bool)
        default_ensures
            fresh,
    {
        true
    }

    /// Which binding contract this source participates in.
    fn binding_model(&self) -> (model: BindingModel)
        default_ensures
            model == BindingModel::SceneSubmitsFbId,
    {
        BindingModel::SceneSubmitsFbId
    }

    /// The buffer's shape.
    fn format(&self) -> SourceFormat;

    /// A CPU view of the pixel storage, where there is one.
    fn map(&mut self, access: MapAccess) -> (mapping: Result<Mapping, SourceError>)
        default_ensures
            mapping == Err::<Mapping, SourceError>(SourceError::Unsupported),
    {
        Err(SourceError::Unsupported)
    }

    /// Give a CPU view back. What was written through it reaches the buffer,
    /// where it was taken for writing.
    fn unmap(&mut self, mapping: Mapping, access: MapAccess) {
    }

    /// The currently acquired buffer's DMA-BUF planes, where it has any.
    fn export_dma_buf(&mut self) -> (desc: Result<DmaBufDesc, SourceError>)
        default_ensures
            desc == Err::<DmaBufDesc, SourceError>(SourceError::Unsupported),
    {
        Err(SourceError::Unsupported)
    }

    /// Bind a driver-owned producer to a plane.
    fn bind_to_plane(&mut self, plane_id: u32) -> (bound: Result<(), SourceError>)
        default_ensures
            bound == Ok::<(), SourceError>(()),
    {
        Ok(())
    }

    /// Unbind from a plane.
    fn unbind_from_plane(&mut self, plane_id: u32) {
    }

    /// The session is losing DRM master; touch the device no more until resumed.
    fn on_session_paused(&mut self) {
    }

    /// The session is back, with the device open under this descriptor.
    fn on_session_resumed(&mut self, device: i32) -> (resumed: Result<(), SourceError>)
        default_ensures
            resumed == Ok::<(), SourceError>(()),
    {
        Ok(())
    }
}

} // verus!
