//! The rule by which a package is packed again.

use crate::bytes::bytes_eq;
use vstd::prelude::*;

verus! {

/// Operations on the archive that holds a package.
pub struct ZipUtil {}

/// Whether a file that holds `existing`, or does not exist, is to be written
/// with `new_data`: a file that holds these very bytes is left alone.
pub open spec fn to_be_written(new_data: Seq<u8>, existing: Option<Seq<u8>>) -> bool {
    existing != Some(new_data)
}

impl ZipUtil {
    /// Tells whether the archive with the bytes `new_data` is to be written
    /// to a file that holds `existing`, or that does not exist yet.
    pub fn needs_writing(new_data: &[u8], existing: Option<&[u8]>) -> (res: bool)
        ensures
            res == to_be_written(
                new_data@,
                match existing {
                    Some(data) => Some(data@),
                    None => None,
                },
            ),
    {
        match existing {
            Some(data) => !bytes_eq(data, new_data),
            None => true,
        }
    }
}

} // verus!
