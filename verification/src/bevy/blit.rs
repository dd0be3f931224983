//! Handing the painted frame to the screen.

use vstd::prelude::*;

verus! {

/// The latest frame. There is nothing to queue: only the newest frame is ever worth
/// drawing, and whoever misses one draws the same frame again.
pub struct FrameHandoff<T> {
    slot: Option<T>,
}

impl<T> FrameHandoff<T> {
    /// The frame on offer.
    pub closed spec fn frame(&self) -> Option<T> {
        self.slot
    }

    /// Replaces the frame on offer.
    pub fn publish(&mut self, copy: T)
        ensures
            final(self).frame() == Some(copy),
    {
        self.slot = Some(copy);
    }

    /// The frame on offer; it stays on offer.
    pub fn latest(&self) -> (r: Option<&T>)
        ensures
            r is Some <==> self.frame() is Some,
            r matches Some(copy) ==> self.frame() == Some(*copy),
    {
        match &self.slot {
            Some(copy) => Some(copy),
            None => None,
        }
    }
}

impl<T> Default for FrameHandoff<T> {
    fn default() -> (handoff: Self)
        ensures
            handoff.frame() is None,
    {
        FrameHandoff { slot: None }
    }
}

/// Whether a frame may be copied to its texture. A resize reaches the two a frame apart;
/// while they disagree, nothing is copied.
pub fn can_blit(texture: [u32; 2], frame: [u32; 2]) -> (r: bool)
    ensures
        r == (texture@ == frame@),
{
    let same: bool = texture[0] == frame[0] && texture[1] == frame[1];
    assert(same ==> texture@ =~= frame@);
    same
}

/// Bytes in a row of the frame: four per pixel. Widths that are multiples of 64 give rows
/// that are multiples of 256 bytes.
pub fn row_bytes(width: u32) -> (r: u32)
    requires
        width * 4 <= u32::MAX,
    ensures
        r == width * 4,
        width % 64 == 0 ==> r % 256 == 0,
{
    width * 4
}

} // verus!
