use vstd::prelude::*;

verus! {

/// The physical identity of a file: the device and inode numbers of the
/// storage object that a directory entry refers to. Hard links to one file
/// share it.
#[derive(Clone, Copy, Debug, PartialEq, Eq, Hash)]
pub struct DevIno {
    dev: u64,
    ino: u64,
}

impl View for DevIno {
    type V = (u64, u64);

    closed spec fn view(&self) -> (u64, u64) {
        (self.dev, self.ino)
    }
}

impl DevIno {
    /// Builds the identity of inode `ino` on device `dev`.
    pub fn from(dev: u64, ino: u64) -> (r: DevIno)
        ensures
            r@ == (dev, ino),
    {
        DevIno { dev, ino }
    }

    /// The identity as a (device, inode) pair, usable as an ordered key.
    pub fn key(&self) -> (r: (u64, u64))
        ensures
            r == self@,
    {
        (self.dev, self.ino)
    }
}

} // verus!
