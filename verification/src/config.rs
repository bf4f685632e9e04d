use vstd::prelude::*;
use crate::paths::RelPath;

verus! {

/// The pixel size every generated thumbnail must have.
#[derive(Clone, Copy, Debug, PartialEq, Eq, Structural)]
pub struct Thumbnail {
    pub width: u32,
    pub height: u32,
}

/// The pixel size full-size outputs are resized to, when configured.
#[derive(Clone, Copy, Debug, PartialEq, Eq, Structural)]
pub struct Resize {
    pub width: u32,
    pub height: u32,
}

/// What a build needs to know: where the sources live, where the outputs go,
/// how large thumbnails are, and whether full-size outputs are resized or
/// copied unchanged.  The shell reads this from its configuration file and
/// hands it over; the build treats it as immutable.
pub struct Config {
    pub input: RelPath,
    pub output: RelPath,
    pub thumbnail: Thumbnail,
    pub resize: Option<Resize>,
}

} // verus!
