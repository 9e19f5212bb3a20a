//! Lining up a reference and a reconstructed PCM signal.
use vstd::prelude::*;

verus! {

/// The frames two signals of `orig_frames` and `recon_frames` frames share
/// when the reconstruction is shifted by `offset` frames (positive: it starts
/// later): the first reference frame, the first reconstructed frame and the
/// number of frames; `None` where they share none.
pub open spec fn spec_overlap(orig_frames: int, recon_frames: int, offset: int) -> Option<(int, int, int)> {
    let orig_start = if offset < 0 {
        -offset
    } else {
        0
    };
    let recon_start = if offset > 0 {
        offset
    } else {
        0
    };
    if orig_start >= orig_frames || recon_start >= recon_frames {
        None
    } else {
        let a = orig_frames - orig_start;
        let b = recon_frames - recon_start;
        let len = if a <= b {
            a
        } else {
            b
        };
        if len > 0 {
            Some((orig_start, recon_start, len))
        } else {
            None
        }
    }
}

/// The frames two signals share at a shift of `offset_frames`.
pub fn overlap_for_offset(orig_frames: usize, recon_frames: usize, offset_frames: isize) -> (r: Option<(usize, usize, usize)>)
    requires
        offset_frames != isize::MIN,
    ensures
        match spec_overlap(orig_frames as int, recon_frames as int, offset_frames as int) {
            Some((a, b, c)) => r == Some((a as usize, b as usize, c as usize)),
            None => r is None,
        },
{
    let orig_start: usize = if offset_frames < 0 {
        (-offset_frames) as usize
    } else {
        0
    };
    let recon_start: usize = if offset_frames > 0 {
        offset_frames as usize
    } else {
        0
    };
    if orig_start >= orig_frames || recon_start >= recon_frames {
        return None;
    }
    let a = orig_frames - orig_start;
    let b = recon_frames - recon_start;
    let len = if a <= b {
        a
    } else {
        b
    };
    if len > 0 {
        Some((orig_start, recon_start, len))
    } else {
        None
    }
}

} // verus!
