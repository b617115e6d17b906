//! Recognising the start of a JPEG image in a block of bytes.
use vstd::prelude::*;

verus! {

/// The block starts with a JPEG signature: `ff d8 ff`, then a byte whose high
/// nibble is `e`.
pub open spec fn jpeg_signature(b: Seq<u8>) -> bool {
    b[0] == 0xffu8 && b[1] == 0xd8u8 && b[2] == 0xffu8 && b[3] & 0xf0u8 == 0xe0u8
}

/// Whether the first four bytes of `buffer` open a JPEG image.
pub fn is_jpeg(buffer: &[u8]) -> (r: bool)
    requires
        buffer@.len() >= 4,
    ensures
        r == jpeg_signature(buffer@),
{
    buffer[0] == 0xff && buffer[1] == 0xd8 && buffer[2] == 0xff && buffer[3] & 0xf0 == 0xe0
}

/// What to do with a block read from a raw image.
#[derive(Debug, Clone, Copy, PartialEq, Eq, Structural)]
pub enum BlockAction {
    /// No image has started yet: the block is dropped.
    Skip,
    /// The block starts the image with this number (from 0).
    StartFile(usize),
    /// The block continues the image being written.
    Append,
}

/// Where a recovery stands: how many images have been started.
#[derive(Debug, Clone, Copy, PartialEq, Eq, Structural)]
pub struct Recovery {
    pub started: usize,
}

impl Recovery {
    /// A recovery that has seen no block yet.
    pub fn new() -> (r: Self)
        ensures
            r.started == 0,
    {
        Recovery { started: 0 }
    }

    /// Decides on the next block: a JPEG signature starts a new image; any other
    /// block belongs to the image being written, if one has started.
    pub fn step(&mut self, block: &[u8]) -> (r: BlockAction)
        requires
            block@.len() >= 4,
            old(self).started < usize::MAX,
        ensures
            jpeg_signature(block@) ==> r == BlockAction::StartFile(old(self).started) && final(self).started
                == old(self).started + 1,
            !jpeg_signature(block@) ==> *final(self) == *old(self) && r == if old(self).started > 0 {
                BlockAction::Append
            } else {
                BlockAction::Skip
            },
    {
        if is_jpeg(block) {
            let n = self.started;
            self.started = n + 1;
            BlockAction::StartFile(n)
        } else if self.started > 0 {
            BlockAction::Append
        } else {
            BlockAction::Skip
        }
    }
}

} // verus!
