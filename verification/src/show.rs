//! What a finished maze looks like.

use vstd::prelude::*;

pub mod rect;

verus! {

/// The file formats in which a picture of a maze can be saved.
#[derive(Debug, Clone, Copy, PartialEq, Eq, PartialOrd, Ord, Hash)]
pub enum SavePictureFormat {
    /// PNG file format
    PNG,
    /// JPEG file format
    JPEG,
}

} // verus!
