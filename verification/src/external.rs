//! A source wrapping a caller-owned, externally allocated DMA-BUF.
//!
//! The library decides whether a buffer can be wrapped and how it is described
//! to the kernel; whoever holds the device imports it.

use vstd::prelude::*;
use crate::errno::{Errno, EINVAL};
use crate::fourcc::{MOD_INVALID, MOD_LINEAR};
use crate::source::{AcquiredBuffer, BindingModel, LayerBufferSource, SourceError, SourceFormat};
use crate::sync::SyncFence;

verus! {

/// One plane of an externally allocated buffer.
#[derive(Debug, Clone, Copy, PartialEq, Eq, Structural)]
pub struct ExternalPlane {
    /// The DMA-BUF descriptor, which stays the caller's.
    pub fd: i32,
    /// Byte offset of this plane within the descriptor.
    pub offset: u32,
    /// Row stride in bytes.
    pub pitch: u32,
}

/// What was wrong with a buffer that could not be wrapped.
#[derive(Debug, Clone, Copy, PartialEq, Eq, Structural)]
pub enum InvalidReason {
    /// A dimension is zero.
    ZeroExtent,
    /// The format is zero.
    ZeroFormat,
    /// There is no plane, or there are more than four.
    PlaneCount,
    /// A plane has no pitch.
    ZeroPitch,
    /// The format is no known `FourCC`.
    UnknownFormat,
    /// A ring has no slots.
    NoSlots,
}

impl InvalidReason {
    /// What was wrong, in words.
    pub open spec fn text_spec(self) -> Seq<char> {
        match self {
            InvalidReason::ZeroExtent => "width and height must be non-zero"@,
            InvalidReason::ZeroFormat => "format must be non-zero"@,
            InvalidReason::PlaneCount => "expected between 1 and 4 planes"@,
            InvalidReason::ZeroPitch => "every plane needs a non-zero pitch"@,
            InvalidReason::UnknownFormat => "format is not a recognized DRM FourCC"@,
            InvalidReason::NoSlots => "a ring needs at least one slot"@,
        }
    }

    /// What was wrong, in words.
    pub fn text(self) -> (text: &'static str)
        ensures
            text@ == self.text_spec(),
    {
        match self {
            InvalidReason::ZeroExtent => "width and height must be non-zero",
            InvalidReason::ZeroFormat => "format must be non-zero",
            InvalidReason::PlaneCount => "expected between 1 and 4 planes",
            InvalidReason::ZeroPitch => "every plane needs a non-zero pitch",
            InvalidReason::UnknownFormat => "format is not a recognized DRM FourCC",
            InvalidReason::NoSlots => "a ring needs at least one slot",
        }
    }
}

/// Why wrapping an external buffer failed.
#[derive(Debug, Clone, Copy, PartialEq, Eq, Structural)]
#[non_exhaustive]
pub enum ExternalError {
    /// A dimension, format, or plane description was unusable.
    Invalid {
        /// What was wrong.
        reason: InvalidReason,
    },
    /// Importing a descriptor, or registering the framebuffer, failed.
    Io(Errno),
}

/// Up to four planes, as KMS accepts.
pub const MAX_PLANES: usize = 4;

/// Whether a number is one of the `FourCC` codes that `drm::buffer::DrmFourcc`
/// lists.
pub uninterp spec fn fourcc_is_recognized(raw: u32) -> bool;

/// `DrmFourcc::try_from` on a raw code: whether it is one the crate lists. The
/// list itself is left unsaid.
#[verifier::external_body]
fn recognize_fourcc(raw: u32) -> (known: bool)
    ensures
        known == fourcc_is_recognized(raw),
{
    drm::buffer::DrmFourcc::try_from(raw).is_ok()
}

/// The sentinel modifier, which is treated as linear.
pub fn drmkit_fmt_invalid() -> (modifier: u64)
    ensures
        modifier == MOD_INVALID,
        modifier == 0x100_0000_0000_0000 - 1,
{
    MOD_INVALID
}

/// How a buffer is described to the kernel.
#[derive(Debug)]
pub struct ImportPlan {
    /// Width in pixels.
    pub width: u32,
    /// Height in pixels.
    pub height: u32,
    /// The format.
    pub fourcc: u32,
    /// The modifier to declare, or `None` to let the kernel take its default.
    pub modifier: Option<u64>,
    /// The descriptors to import, one per plane.
    pub fds: Vec<i32>,
    /// Byte offset of each plane, zero past the last.
    pub offsets: [u32; 4],
    /// Row stride of each plane, zero past the last.
    pub pitches: [u32; 4],
}

/// The first thing wrong with a buffer, if anything is, given whether its format
/// is recognized.
pub open spec fn shape_fault(
    format: SourceFormat,
    planes: Seq<ExternalPlane>,
    recognized: bool,
) -> Option<InvalidReason> {
    if format.width == 0 || format.height == 0 {
        Some(InvalidReason::ZeroExtent)
    } else if format.fourcc == 0 {
        Some(InvalidReason::ZeroFormat)
    } else if planes.len() == 0 || planes.len() > MAX_PLANES {
        Some(InvalidReason::PlaneCount)
    } else if exists|i: int| 0 <= i < planes.len() && (#[trigger] planes[i]).pitch == 0 {
        Some(InvalidReason::ZeroPitch)
    } else if !recognized {
        Some(InvalidReason::UnknownFormat)
    } else {
        None
    }
}

/// The first thing wrong with a buffer, if anything is.
pub open spec fn import_fault(format: SourceFormat, planes: Seq<ExternalPlane>) -> Option<
    InvalidReason,
> {
    shape_fault(format, planes, fourcc_is_recognized(format.fourcc))
}

/// The modifier to declare: none for a linear or unstated layout.
pub open spec fn declared_modifier(modifier: u64) -> Option<u64> {
    if modifier == MOD_LINEAR || modifier == MOD_INVALID {
        None
    } else {
        Some(modifier)
    }
}

/// Whether `plan` describes the buffer.
pub open spec fn describes(
    plan: ImportPlan,
    format: SourceFormat,
    planes: Seq<ExternalPlane>,
) -> bool {
    &&& plan.width == format.width
    &&& plan.height == format.height
    &&& plan.fourcc == format.fourcc
    &&& plan.modifier == declared_modifier(format.modifier)
    &&& plan.fds@ == planes.map_values(|plane: ExternalPlane| plane.fd)
    &&& forall|i: int|
        0 <= i < 4 ==> #[trigger] plan.offsets@[i] == if i < planes.len() {
            planes[i].offset
        } else {
            0
        }
    &&& forall|i: int|
        0 <= i < 4 ==> #[trigger] plan.pitches@[i] == if i < planes.len() {
            planes[i].pitch
        } else {
            0
        }
}

/// Check a buffer and describe it to the kernel.
///
/// Whether the plane count suits the format, and whether the modifier is
/// supported, is left to the kernel.
pub fn plan_import(format: SourceFormat, planes: &[ExternalPlane]) -> (plan: Result<
    ImportPlan,
    ExternalError,
>)
    ensures
        match import_fault(format, planes@) {
            Some(reason) => plan == Err::<ImportPlan, ExternalError>(
                ExternalError::Invalid { reason },
            ),
            None => plan matches Ok(plan) && describes(plan, format, planes@),
        },
{
    let recognized: bool = recognize_fourcc(format.fourcc);
    plan_shape(format, planes, recognized)
}

/// Check a buffer whose format is or is not recognized, and describe it to the
/// kernel.
pub fn plan_shape(format: SourceFormat, planes: &[ExternalPlane], recognized: bool) -> (plan: Result<
    ImportPlan,
    ExternalError,
>)
    ensures
        match shape_fault(format, planes@, recognized) {
            Some(reason) => plan == Err::<ImportPlan, ExternalError>(
                ExternalError::Invalid { reason },
            ),
            None => plan matches Ok(plan) && describes(plan, format, planes@),
        },
{
    if format.width == 0 || format.height == 0 {
        return Err(ExternalError::Invalid { reason: InvalidReason::ZeroExtent });
    }
    if format.fourcc == 0 {
        return Err(ExternalError::Invalid { reason: InvalidReason::ZeroFormat });
    }
    if planes.len() == 0 || planes.len() > MAX_PLANES {
        return Err(ExternalError::Invalid { reason: InvalidReason::PlaneCount });
    }
    let mut fds: Vec<i32> = Vec::new();
    let mut offsets: [u32; 4] = [0, 0, 0, 0];
    let mut pitches: [u32; 4] = [0, 0, 0, 0];
    let mut i: usize = 0;
    while i < planes.len()
        invariant
            0 <= i <= planes@.len() <= 4,
            format.width != 0,
            format.height != 0,
            format.fourcc != 0,
            planes@.len() > 0,
            fds@ == planes@.take(i as int).map_values(|plane: ExternalPlane| plane.fd),
            forall|j: int| 0 <= j < i ==> (#[trigger] planes@[j]).pitch != 0,
            forall|j: int|
                0 <= j < 4 ==> #[trigger] offsets@[j] == if j < i {
                    planes@[j].offset
                } else {
                    0
                },
            forall|j: int|
                0 <= j < 4 ==> #[trigger] pitches@[j] == if j < i {
                    planes@[j].pitch
                } else {
                    0
                },
        decreases planes@.len() - i,
    {
        let plane: ExternalPlane = planes[i];
        if plane.pitch == 0 {
            assert(planes@[i as int].pitch == 0);
            return Err(ExternalError::Invalid { reason: InvalidReason::ZeroPitch });
        }
        fds.push(plane.fd);
        offsets[i] = plane.offset;
        pitches[i] = plane.pitch;
        assert(fds@ =~= planes@.take(i + 1).map_values(|plane: ExternalPlane| plane.fd));
        i += 1;
    }
    assert(planes@.take(i as int) =~= planes@);
    if !recognized {
        return Err(ExternalError::Invalid { reason: InvalidReason::UnknownFormat });
    }
    let trivial: bool = format.modifier == MOD_LINEAR || format.modifier == drmkit_fmt_invalid();
    Ok(
        ImportPlan {
            width: format.width,
            height: format.height,
            fourcc: format.fourcc,
            modifier: if trivial {
                None
            } else {
                Some(format.modifier)
            },
            fds,
            offsets,
            pitches,
        },
    )
}

/// An imported buffer's framebuffer, while it has one.
#[derive(Debug)]
pub struct ImportedFramebuffer {
    /// The framebuffer id.
    pub fb: Option<u32>,
}

/// What the import of a buffer comes to, given what the kernel made of it: a
/// buffer that makes no sense is refused whatever the kernel says.
pub open spec fn import_outcome(
    format: SourceFormat,
    planes: Seq<ExternalPlane>,
    imported: Result<u32, Errno>,
) -> Result<ImportedFramebuffer, ExternalError> {
    match (import_fault(format, planes), imported) {
        (Some(reason), _) => Err(ExternalError::Invalid { reason }),
        (None, Ok(fb_id)) => Ok(ImportedFramebuffer { fb: Some(fb_id) }),
        (None, Err(errno)) => Err(ExternalError::Io(errno)),
    }
}

impl ImportedFramebuffer {
    /// The import of a buffer, given what the kernel made of it.
    pub fn import(format: SourceFormat, planes: &[ExternalPlane], imported: Result<u32, Errno>) -> (framebuffer:
        Result<ImportedFramebuffer, ExternalError>)
        ensures
            framebuffer == import_outcome(format, planes@, imported),
    {
        match plan_import(format, planes) {
            Err(error) => Err(error),
            Ok(_) => match imported {
                Ok(fb_id) => Ok(ImportedFramebuffer { fb: Some(fb_id) }),
                Err(errno) => Err(ExternalError::Io(errno)),
            },
        }
    }

    /// The framebuffer id, while the kernel knows one.
    pub fn fb_id(&self) -> (id: Option<u32>)
        ensures
            id == self.fb,
    {
        self.fb
    }

    /// Drop the framebuffer id without telling the kernel.
    pub fn forget(&mut self)
        ensures
            final(self).fb is None,
    {
        self.fb = None;
    }
}

/// What is left to do for a source that is going away.
#[derive(Debug, Clone, Copy, PartialEq, Eq, Structural)]
pub struct Teardown {
    /// The framebuffer to destroy.
    pub fb: Option<u32>,
    /// Whether the upstream buffer is still to be re-queued.
    pub requeue: bool,
}

/// A caller-owned DMA-BUF wrapped as a scanout-ready framebuffer.
///
/// One buffer, one framebuffer, returned from every acquire. The upstream
/// buffer is re-queued **exactly once**: after the first release, or on teardown
/// if none came.
#[derive(Debug)]
pub struct ExternalDmaBufSource {
    /// The registered framebuffer.
    pub fb: Option<u32>,
    /// The buffer's shape.
    pub format: SourceFormat,
    /// The producer's render-done fence.
    pub pending_fence: Option<SyncFence>,
    /// A duplicate of it, for the next acquire to hand over.
    pub spare_fence: Option<SyncFence>,
    /// Whether the upstream buffer is to be re-queued on release.
    pub callback_armed: bool,
    /// Whether it is to be re-queued now.
    pub requeue_due: bool,
}

impl ExternalDmaBufSource {
    /// The upstream buffer is owed at most one re-queue.
    pub open spec fn well_formed(&self) -> bool {
        !(self.callback_armed && self.requeue_due)
    }

    /// Wrap the given planes, given what the kernel made of the import.
    ///
    /// On failure nothing is re-queued: the caller still owns the upstream
    /// buffer.
    pub fn create(
        format: SourceFormat,
        planes: &[ExternalPlane],
        imported: Result<u32, Errno>,
        has_callback: bool,
    ) -> (source: Result<Self, ExternalError>)
        ensures
            source == match (import_fault(format, planes@), imported) {
                (Some(reason), _) => Err::<ExternalDmaBufSource, ExternalError>(
                    ExternalError::Invalid { reason },
                ),
                (None, Err(errno)) => Err(ExternalError::Io(errno)),
                (None, Ok(fb_id)) => Ok(
                    ExternalDmaBufSource {
                        fb: Some(fb_id),
                        format,
                        pending_fence: None,
                        spare_fence: None,
                        callback_armed: has_callback,
                        requeue_due: false,
                    },
                ),
            },
            source matches Ok(source) ==> source.well_formed(),
    {
        match ImportedFramebuffer::import(format, planes, imported) {
            Err(error) => Err(error),
            Ok(framebuffer) => Ok(
                ExternalDmaBufSource {
                    fb: framebuffer.fb,
                    format,
                    pending_fence: None,
                    spare_fence: None,
                    callback_armed: has_callback,
                    requeue_due: false,
                },
            ),
        }
    }

    /// Set the producer's render-done fence for subsequent acquires, replacing
    /// any previous one. The fences it replaces come back.
    pub fn set_acquire_fence(&mut self, fence: SyncFence) -> (replaced: (
        Option<SyncFence>,
        Option<SyncFence>,
    ))
        ensures
            replaced == (old(self).pending_fence, old(self).spare_fence),
            *final(self) == (ExternalDmaBufSource {
                pending_fence: Some(fence),
                spare_fence: None,
                ..*old(self)
            }),
    {
        let mut pending: Option<SyncFence> = Some(fence);
        let mut spare: Option<SyncFence> = None;
        core::mem::swap(&mut pending, &mut self.pending_fence);
        core::mem::swap(&mut spare, &mut self.spare_fence);
        (pending, spare)
    }

    /// Whether a producer fence is currently set.
    pub fn has_acquire_fence(&self) -> (set: bool)
        ensures
            set == self.pending_fence is Some,
    {
        self.pending_fence.is_some()
    }

    /// The descriptor the next acquire needs a duplicate of.
    ///
    /// A scene acquires more than once before a frame is shown, so each acquire
    /// hands over a duplicate and the producer's fence stays.
    pub fn duplicate_wanted(&self) -> (fd: Option<i32>)
        ensures
            fd == match (self.pending_fence, self.spare_fence) {
                (Some(fence), None) => fence.fd,
                _ => None,
            },
    {
        match (&self.pending_fence, &self.spare_fence) {
            (Some(fence), None) => fence.as_fd(),
            _ => None,
        }
    }

    /// Hand in the duplicate the next acquire needs.
    pub fn offer_duplicate(&mut self, fence: SyncFence)
        ensures
            *final(self) == (ExternalDmaBufSource { spare_fence: Some(fence), ..*old(self) }),
    {
        self.spare_fence = Some(fence);
    }

    /// Acquire with a duplicate of the producer's fence made on the spot.
    ///
    /// The producer's fence stays for the next acquire. Where it cannot be
    /// duplicated the buffer goes out without one.
    pub fn acquire_duplicating<D: Fn(i32) -> Option<i32>>(&mut self, duplicate: D) -> (acquired:
        Result<AcquiredBuffer, SourceError>)
        requires
            forall|fd: i32| call_requires(duplicate, (fd,)),
        ensures
            *final(self) == *old(self),
            match (old(self).fb, acquired) {
                (None, Err(error)) => error == SourceError::Failed(Errno { raw: EINVAL }),
                (Some(fb_id), Ok(buffer)) => {
                    &&& buffer.fb_id == fb_id
                    &&& buffer.token == 0
                    &&& buffer.damage@.len() == 0
                    &&& match old(self).pending_fence {
                        Some(SyncFence { fd: Some(fd) }) => exists|copy: Option<i32>| #[trigger]
                            call_ensures(duplicate, (fd,), copy) && buffer.acquire_fence
                                == match copy {
                                Some(_) => Some(SyncFence { fd: copy }),
                                None => None,
                            },
                        _ => buffer.acquire_fence is None,
                    }
                },
                _ => false,
            },
    {
        let fb_id: u32 = match self.fb {
            Some(fb_id) => fb_id,
            None => {
                return Err(SourceError::Failed(Errno::new(EINVAL)));
            },
        };
        let pending: Option<i32> = match &self.pending_fence {
            Some(fence) => fence.as_fd(),
            None => None,
        };
        let acquire_fence: Option<SyncFence> = match pending {
            Some(fd) => match duplicate(fd) {
                Some(copy) => Some(SyncFence { fd: Some(copy) }),
                None => None,
            },
            None => None,
        };
        Ok(AcquiredBuffer { fb_id, token: 0, acquire_fence, damage: Vec::new() })
    }

    /// The registered framebuffer id.
    pub fn fb_id(&self) -> (id: Option<u32>)
        ensures
            id == self.fb,
    {
        self.fb
    }

    /// Mark the upstream buffer for re-queueing if that has not happened yet.
    fn fire_on_release_once(&mut self)
        ensures
            *final(self) == (ExternalDmaBufSource {
                callback_armed: false,
                requeue_due: old(self).requeue_due || old(self).callback_armed,
                ..*old(self)
            }),
    {
        if self.callback_armed {
            self.callback_armed = false;
            self.requeue_due = true;
        }
    }

    /// Whether the upstream buffer is to be re-queued now, asked once.
    pub fn take_requeue(&mut self) -> (due: bool)
        ensures
            due == old(self).requeue_due,
            *final(self) == (ExternalDmaBufSource { requeue_due: false, ..*old(self) }),
    {
        let due: bool = self.requeue_due;
        self.requeue_due = false;
        due
    }

    /// Give up the buffer.
    pub fn teardown(self) -> (left: Teardown)
        ensures
            left == (Teardown { fb: self.fb, requeue: self.callback_armed || self.requeue_due }),
    {
        Teardown { fb: self.fb, requeue: self.callback_armed || self.requeue_due }
    }
}

impl LayerBufferSource for ExternalDmaBufSource {
    /// The one framebuffer, with a duplicate of the producer's fence if one was
    /// offered.
    fn acquire(&mut self) -> (acquired: Result<AcquiredBuffer, SourceError>)
        ensures
            match old(self).fb {
                None => acquired == Err::<AcquiredBuffer, SourceError>(
                    SourceError::Failed(Errno { raw: EINVAL }),
                ) && *final(self) == *old(self),
                Some(fb_id) => acquired matches Ok(buffer) && buffer.fb_id == fb_id && buffer.token
                    == 0 && buffer.damage@.len() == 0 && buffer.acquire_fence == old(
                    self,
                ).spare_fence && *final(self) == (ExternalDmaBufSource {
                    spare_fence: None,
                    ..*old(self)
                }),
            },
    {
        let fb_id: u32 = match self.fb {
            Some(fb_id) => fb_id,
            None => {
                return Err(SourceError::Failed(Errno::new(EINVAL)));
            },
        };
        let mut acquire_fence: Option<SyncFence> = None;
        core::mem::swap(&mut acquire_fence, &mut self.spare_fence);
        Ok(AcquiredBuffer { fb_id, token: 0, acquire_fence, damage: Vec::new() })
    }

    /// The first release re-queues the upstream buffer; later ones do nothing.
    fn release(&mut self, acquired: AcquiredBuffer)
        ensures
            *final(self) == (ExternalDmaBufSource {
                callback_armed: false,
                requeue_due: old(self).requeue_due || old(self).callback_armed,
                ..*old(self)
            }),
    {
        self.fire_on_release_once();
    }

    fn binding_model(&self) -> (model: BindingModel)
        ensures
            model == BindingModel::SceneSubmitsFbId,
    {
        BindingModel::SceneSubmitsFbId
    }

    fn format(&self) -> (format: SourceFormat)
        ensures
            format == self.format,
    {
        self.format
    }
}

/// How many re-queues a source still owes.
pub open spec fn requeues_owed(source: ExternalDmaBufSource) -> nat {
    (if source.callback_armed {
        1nat
    } else {
        0
    }) + (if source.requeue_due {
        1nat
    } else {
        0
    })
}

/// A source owes at most one re-queue; releasing keeps what it owes, asking for
/// it pays it, and teardown pays whatever is left. So the upstream buffer is
/// re-queued exactly once if a callback was given, and never otherwise.
pub proof fn law_requeue_happens_once(
    source: ExternalDmaBufSource,
    released: ExternalDmaBufSource,
    asked: ExternalDmaBufSource,
    due: bool,
)
    requires
        source.well_formed(),
        released == (ExternalDmaBufSource {
            callback_armed: false,
            requeue_due: source.requeue_due || source.callback_armed,
            ..source
        }),
        asked == (ExternalDmaBufSource { requeue_due: false, ..released }),
        due == released.requeue_due,
    ensures
        requeues_owed(source) <= 1,
        released.well_formed(),
        requeues_owed(released) == requeues_owed(source),
        requeues_owed(asked) == 0,
        due == (requeues_owed(source) == 1),
{
}

/// A buffer makes sense exactly when it has an extent, a format, one to four
/// planes with a pitch each, and a recognized format; what is wrong first is what
/// is said.
pub proof fn law_a_sound_buffer_has_no_fault(
    format: SourceFormat,
    planes: Seq<ExternalPlane>,
    recognized: bool,
)
    ensures
        shape_fault(format, planes, recognized) is None <==> format.width > 0 && format.height > 0
            && format.fourcc != 0 && 1 <= planes.len() <= 4 && (forall|i: int|
            0 <= i < planes.len() ==> (#[trigger] planes[i]).pitch > 0) && recognized,
        format.width == 0 || format.height == 0 ==> shape_fault(format, planes, recognized) == Some(
            InvalidReason::ZeroExtent,
        ),
        format.width > 0 && format.height > 0 && format.fourcc == 0 ==> shape_fault(
            format,
            planes,
            recognized,
        ) == Some(InvalidReason::ZeroFormat),
        format.width > 0 && format.height > 0 && format.fourcc != 0 && (planes.len() == 0
            || planes.len() > 4) ==> shape_fault(format, planes, recognized) == Some(
            InvalidReason::PlaneCount,
        ),
        format.width > 0 && format.height > 0 && format.fourcc != 0 && 1 <= planes.len() <= 4 && (
        forall|i: int| 0 <= i < planes.len() ==> (#[trigger] planes[i]).pitch > 0) && !recognized
            ==> shape_fault(format, planes, recognized) == Some(InvalidReason::UnknownFormat),
        forall|i: int|
            0 <= i < planes.len() && (#[trigger] planes[i]).pitch == 0 && format.width > 0
                && format.height > 0 && format.fourcc != 0 && planes.len() <= 4 ==> shape_fault(
                format,
                planes,
                recognized,
            ) == Some(InvalidReason::ZeroPitch),
{
}

/// A buffer is described to the kernel as it is: its size and format, each plane's
/// descriptor, offset and pitch in its place, and a modifier only where there is
/// one to declare.
pub proof fn law_a_buffer_is_described_plane_by_plane(
    plan: ImportPlan,
    format: SourceFormat,
    planes: Seq<ExternalPlane>,
    i: int,
)
    requires
        describes(plan, format, planes),
        planes.len() <= 4,
    ensures
        plan.width == format.width,
        plan.height == format.height,
        plan.fourcc == format.fourcc,
        plan.fds@.len() == planes.len(),
        0 <= i < planes.len() ==> plan.fds@[i] == planes[i].fd && plan.offsets@[i]
            == planes[i].offset && plan.pitches@[i] == planes[i].pitch,
        planes.len() <= i < 4 ==> plan.offsets@[i] == 0 && plan.pitches@[i] == 0,
        format.modifier == 0 || format.modifier == 0x00FF_FFFF_FFFF_FFFF ==> plan.modifier is None,
        format.modifier != 0 && format.modifier != 0x00FF_FFFF_FFFF_FFFF ==> plan.modifier == Some(
            format.modifier,
        ),
{
}

/// An import succeeds exactly for a sound buffer the kernel took, with the
/// framebuffer it gave.
pub proof fn law_an_import_is_what_the_kernel_made_of_it(
    format: SourceFormat,
    planes: Seq<ExternalPlane>,
    imported: Result<u32, Errno>,
)
    ensures
        import_fault(format, planes) matches Some(reason) ==> import_outcome(
            format,
            planes,
            imported,
        ) == Err::<ImportedFramebuffer, ExternalError>(ExternalError::Invalid { reason }),
        import_fault(format, planes) is None ==> match imported {
            Ok(fb_id) => import_outcome(format, planes, imported) matches Ok(framebuffer)
                && framebuffer.fb == Some(fb_id),
            Err(errno) => import_outcome(format, planes, imported) == Err::<
                ImportedFramebuffer,
                ExternalError,
            >(ExternalError::Io(errno)),
        },
        import_fault(format, planes) == shape_fault(
            format,
            planes,
            fourcc_is_recognized(format.fourcc),
        ),
{
}

/// Each thing wrong with a buffer is told apart in words.
pub proof fn law_faults_are_put_in_words(reason: InvalidReason, words: &str)
    requires
        call_ensures(InvalidReason::text, (reason,), words),
    ensures
        reason is ZeroExtent ==> words@ == "width and height must be non-zero"@,
        reason is ZeroFormat ==> words@ == "format must be non-zero"@,
        reason is PlaneCount ==> words@ == "expected between 1 and 4 planes"@,
        reason is ZeroPitch ==> words@ == "every plane needs a non-zero pitch"@,
        reason is UnknownFormat ==> words@ == "format is not a recognized DRM FourCC"@,
        reason is NoSlots ==> words@ == "a ring needs at least one slot"@,
{
}

} // verus!
