//! Small per-frame helpers around the window loop: the pending-resize
//! hand-off and the configured assets directory.

use vstd::prelude::*;

verus! {

/// Where the surrounding application loads its assets from.
#[derive(Clone, Debug, PartialEq, Eq)]
pub struct AssetsDir(pub String);

impl AssetsDir {
    /// Wraps a directory path.
    pub fn new(path: String) -> (d: AssetsDir)
        ensures
            d.0@ == path@,
    {
        AssetsDir(path)
    }

    /// The wrapped directory path.
    pub fn path(&self) -> (p: &String)
        ensures
            p@ == self.0@,
    {
        &self.0
    }
}

/// The per-frame system that applies a pending window resize: requests
/// are posted between frames and consumed once per frame, and a size of
/// zero in either dimension is refused.  Reconfiguring the surface and
/// the depth texture for the new size is the renderer's work and stays
/// with it.
pub struct UpdateSize;

impl UpdateSize {
    /// Posts a resize request; a degenerate size with an empty dimension
    /// leaves the pending request as it was.
    pub fn request(pending: &mut Option<(u32, u32)>, new_size: (u32, u32))
        ensures
            *final(pending) == (if new_size.0 > 0 && new_size.1 > 0 {
                Some(new_size)
            } else {
                *old(pending)
            }),
    {
        if new_size.0 > 0 && new_size.1 > 0 {
            *pending = Some(new_size);
        }
    }

    /// Consumes the pending resize request, if any: the current size
    /// takes the posted value and the request slot empties.  Returns
    /// whether anything changed hands.
    pub fn run(pending: &mut Option<(u32, u32)>, size: &mut (u32, u32)) -> (changed: bool)
        ensures
            *final(pending) == None::<(u32, u32)>,
            changed == old(pending).is_some(),
            *final(size) == (match *old(pending) {
                Some(s) => s,
                None => *old(size),
            }),
    {
        match *pending {
            Some(s) => {
                *size = s;
                *pending = None;
                true
            },
            None => {
                *pending = None;
                false
            },
        }
    }
}

} // verus!
