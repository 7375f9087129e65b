//! A single-buffer source backed by a CPU-writable linear buffer.

use vstd::prelude::*;
use crate::canvas::ScanoutBuffer;
use crate::errno::{Errno, EINVAL, ENOMEM, EOVERFLOW};
use crate::fourcc::MOD_LINEAR;
use crate::source::{AcquiredBuffer, BindingModel, DamageRect, LayerBufferSource, MapAccess, Mapping, SourceError, SourceFormat};

verus! {

/// Why a buffer could not be allocated.
#[derive(Debug, Clone, Copy, PartialEq, Eq, Structural)]
pub enum DumbError {
    /// The kernel refused.
    Io(Errno),
    /// The request made no sense.
    InvalidConfig,
    /// The format cannot be allocated this way.
    UnsupportedFormat,
    /// The buffer would not fit its own length.
    TooLarge,
}

impl DumbError {
    /// The failure as a system error: the kernel's own answer where there is
    /// one.
    pub open spec fn errno_spec(self) -> Errno {
        match self {
            DumbError::Io(errno) => errno,
            DumbError::InvalidConfig => Errno { raw: EINVAL },
            DumbError::UnsupportedFormat => Errno { raw: EINVAL },
            DumbError::TooLarge => Errno { raw: EOVERFLOW },
        }
    }
}

/// A buffer failure as a system error.
pub fn errno(error: &DumbError) -> (errno: Errno)
    ensures
        errno == error.errno_spec(),
{
    match error {
        DumbError::Io(errno) => *errno,
        DumbError::InvalidConfig => Errno::new(EINVAL),
        DumbError::UnsupportedFormat => Errno::new(EINVAL),
        DumbError::TooLarge => Errno::new(EOVERFLOW),
    }
}

/// Copy a run of bytes.
pub fn copy_bytes(bytes: &[u8]) -> (copy: Vec<u8>)
    ensures
        copy@ == bytes@,
{
    let mut copy: Vec<u8> = Vec::new();
    let mut i: usize = 0;
    while i < bytes.len()
        invariant
            0 <= i <= bytes@.len(),
            copy@ == bytes@.take(i as int),
        decreases bytes@.len() - i,
    {
        copy.push(bytes[i]);
        assert(copy@ =~= bytes@.take(i + 1));
        i += 1;
    }
    assert(copy@ =~= bytes@);
    copy
}

/// The simplest source: one linear buffer, created once and reused every frame.
#[derive(Debug)]
pub struct DumbBufferSource {
    /// The buffer.
    pub buffer: ScanoutBuffer,
    /// Its shape.
    pub format: SourceFormat,
    /// Reported on the next acquire, then cleared.
    pub pending_damage: Vec<DamageRect>,
}

impl DumbBufferSource {
    /// A source over a freshly allocated buffer of the given size and format.
    pub fn create(width: u32, height: u32, fourcc: u32, allocated: Result<ScanoutBuffer, DumbError>) -> (source:
        Result<Self, DumbError>)
        ensures
            match allocated {
                Ok(buffer) => source matches Ok(source) && source.buffer == buffer && source.format
                    == (SourceFormat { fourcc, modifier: MOD_LINEAR, width, height })
                    && source.pending_damage@.len() == 0,
                Err(error) => source == Err::<DumbBufferSource, DumbError>(error),
            },
    {
        match allocated {
            Ok(buffer) => Ok(
                DumbBufferSource {
                    buffer,
                    format: SourceFormat { fourcc, modifier: MOD_LINEAR, width, height },
                    pending_damage: Vec::new(),
                },
            ),
            Err(error) => Err(error),
        }
    }

    /// Report the dirty region for the **next** acquire, replacing any unread
    /// one. Empty means full-frame.
    pub fn set_damage(&mut self, rects: &[DamageRect])
        ensures
            final(self).pending_damage@ == rects@,
            *final(self) == (DumbBufferSource {
                pending_damage: final(self).pending_damage,
                ..*old(self)
            }),
    {
        let mut damage: Vec<DamageRect> = Vec::new();
        let mut i: usize = 0;
        while i < rects.len()
            invariant
                0 <= i <= rects@.len(),
                damage@ == rects@.take(i as int),
            decreases rects@.len() - i,
        {
            damage.push(rects[i]);
            assert(damage@ =~= rects@.take(i + 1));
            i += 1;
        }
        assert(damage@ =~= rects@);
        self.pending_damage = damage;
    }

    /// The underlying buffer.
    pub fn buffer(&self) -> (buffer: &ScanoutBuffer)
        ensures
            *buffer == self.buffer,
    {
        &self.buffer
    }

    /// Take a buffer allocated against the resumed session's device in place of
    /// the old one, whose device state is forgotten. The shape stays.
    pub fn resume_with(&mut self, allocated: Result<ScanoutBuffer, DumbError>) -> (resumed: Result<
        (),
        SourceError,
    >)
        ensures
            match allocated {
                Ok(buffer) => resumed == Ok::<(), SourceError>(()) && final(self).buffer == buffer,
                Err(_) => {
                    &&& resumed == Err::<(), SourceError>(SourceError::Failed(Errno { raw: ENOMEM }))
                    &&& final(self).buffer.fb_id is None
                    &&& final(self).buffer.data@.len() == 0
                    &&& final(self).buffer.stride == old(self).buffer.stride
                },
            },
            final(self).format == old(self).format,
            final(self).pending_damage == old(self).pending_damage,
    {
        self.buffer.forget();
        match allocated {
            Ok(buffer) => {
                self.buffer = buffer;
                Ok(())
            },
            Err(_) => Err(SourceError::Failed(Errno::new(ENOMEM))),
        }
    }
}

impl LayerBufferSource for DumbBufferSource {
    /// The one framebuffer, with the damage set since the last acquire.
    fn acquire(&mut self) -> (acquired: Result<AcquiredBuffer, SourceError>)
        ensures
            match old(self).buffer.fb_id {
                Some(fb_id) => {
                    &&& acquired matches Ok(buffer) && buffer.fb_id == fb_id && buffer.token == 0
                        && buffer.acquire_fence is None && buffer.damage == old(self).pending_damage
                    &&& final(self).pending_damage@.len() == 0
                    &&& *final(self) == (DumbBufferSource {
                        pending_damage: final(self).pending_damage,
                        ..*old(self)
                    })
                },
                None => acquired == Err::<AcquiredBuffer, SourceError>(
                    SourceError::Failed(Errno { raw: EINVAL }),
                ) && *final(self) == *old(self),
            },
    {
        let fb_id: u32 = match self.buffer.fb_id {
            Some(fb_id) => fb_id,
            None => {
                return Err(SourceError::Failed(Errno::new(EINVAL)));
            },
        };
        let mut damage: Vec<DamageRect> = Vec::new();
        core::mem::swap(&mut damage, &mut self.pending_damage);
        Ok(AcquiredBuffer { fb_id, token: 0, acquire_fence: None, damage })
    }

    /// Nothing to do: the same buffer goes out next acquire.
    fn release(&mut self, acquired: AcquiredBuffer)
        ensures
            *final(self) == *old(self),
    {
    }

    fn binding_model(&self) -> (model: BindingModel)
        ensures
            model == BindingModel::SceneSubmitsFbId,
    {
        BindingModel::SceneSubmitsFbId
    }

    fn format(&self) -> (format: SourceFormat)
        ensures
            format == self.format,
    {
        self.format
    }

    fn map(&mut self, access: MapAccess) -> (mapping: Result<Mapping, SourceError>)
        ensures
            mapping matches Ok(mapping) && mapping.pixels@ == old(self).buffer.data@
                && mapping.stride == old(self).buffer.stride && mapping.width == old(
                self,
            ).format.width && mapping.height == old(self).format.height,
            *final(self) == *old(self),
    {
        Ok(
            Mapping {
                pixels: copy_bytes(self.buffer.data.as_slice()),
                stride: self.buffer.stride,
                width: self.format.width,
                height: self.format.height,
            },
        )
    }

    /// What was written reaches the buffer, as far as it still has the size that
    /// was mapped.
    fn unmap(&mut self, mapping: Mapping, access: MapAccess)
        ensures
            final(self).buffer.data@ == if access != MapAccess::Read && mapping.pixels@.len() == old(
                self,
            ).buffer.data@.len() {
                mapping.pixels@
            } else {
                old(self).buffer.data@
            },
            *final(self) == (DumbBufferSource {
                buffer: ScanoutBuffer { data: final(self).buffer.data, ..old(self).buffer },
                ..*old(self)
            }),
    {
        if access != MapAccess::Read && mapping.pixels.len() == self.buffer.data.len() {
            self.buffer.data = mapping.pixels;
        }
    }

    /// The old device's buffer is forgotten, and the source has nothing to show
    /// until [`resume_with`](Self::resume_with) is given another.
    fn on_session_resumed(&mut self, device: i32) -> (resumed: Result<(), SourceError>)
        ensures
            resumed == Err::<(), SourceError>(SourceError::Failed(Errno { raw: EINVAL })),
            final(self).buffer.fb_id is None,
            final(self).buffer.data@.len() == 0,
            final(self).buffer.stride == old(self).buffer.stride,
            *final(self) == (DumbBufferSource { buffer: final(self).buffer, ..*old(self) }),
    {
        self.buffer.forget();
        Err(SourceError::Failed(Errno::new(EINVAL)))
    }
}

/// A failure keeps the kernel's own number; without one, a request that made no
/// sense is 22 and a buffer that does not fit is 75.
pub proof fn law_failures_keep_their_number(error: DumbError, answer: Errno)
    requires
        call_ensures(errno, (&error,), answer),
    ensures
        error matches DumbError::Io(own) ==> answer == own,
        error is InvalidConfig || error is UnsupportedFormat ==> answer.raw == 22,
        error is TooLarge ==> answer.raw == 75,
{
}

} // verus!
