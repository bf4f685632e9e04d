use vstd::prelude::*;

verus! {

/// The failure taxonomy of a gallery build.
///
/// `SourceRead`, `Decode`, `Write` and `DirectoryCreate` describe per-item
/// failures of the image pipeline: they are reported and never abort the
/// batch.  The remaining variants are fatal to the whole build.
#[derive(Clone, Copy, Debug, PartialEq, Eq, Structural)]
pub enum Error {
    /// A source file is missing or unreadable.
    SourceRead,
    /// A file is not a valid image.
    Decode,
    /// A destination file cannot be written.
    Write,
    /// A directory could not be created.
    DirectoryCreate,
    /// The input root holds no images at all.
    NoImages,
    /// A non-empty collection offers no thumbnail candidate.  This signals a
    /// broken structural invariant, not bad user input.
    NoThumbnail,
    /// A path misses a needed part: a parent, a file name, or the input-root
    /// prefix.
    InvalidPath,
}

impl Error {
    /// A user-visible description of the failure.
    pub fn message(&self) -> (r: &'static str)
        ensures
            *self is SourceRead ==> r@ == "source file is missing or unreadable"@,
            *self is Decode ==> r@ == "not a valid image"@,
            *self is Write ==> r@ == "destination is not writable"@,
            *self is DirectoryCreate ==> r@ == "could not create directory"@,
            *self is NoImages ==> r@ == "no images found"@,
            *self is NoThumbnail ==> r@ == "no thumbnail path"@,
            *self is InvalidPath ==> r@ == "path misses a needed part"@,
    {
        match self {
            Error::SourceRead => "source file is missing or unreadable",
            Error::Decode => "not a valid image",
            Error::Write => "destination is not writable",
            Error::DirectoryCreate => "could not create directory",
            Error::NoImages => "no images found",
            Error::NoThumbnail => "no thumbnail path",
            Error::InvalidPath => "path misses a needed part",
        }
    }
}

} // verus!
