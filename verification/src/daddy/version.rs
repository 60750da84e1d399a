//! The version marker.
use vstd::prelude::*;
use crate::daddy::utilities::cursor::Cursor;

verus! {

/// A version of the format.
#[derive(Copy, Clone, Debug, PartialEq, Eq, Structural)]
pub enum Version {
    /// Version 0.1.0.
    V0_1_0,
}

/// An error when reading a version.
#[derive(Debug)]
pub enum VersionSerError {
    /// The bytes were not a known version.
    Invalid,
    /// There were not enough bytes.
    NotEnoughBytes,
}

impl Version {
    /// The bytes that stand for this version: `V0_1_0` in ASCII.
    pub fn to_bytes(self) -> (r: &'static [u8])
        ensures
            r@ == seq![0x56u8, 0x30, 0x5f, 0x31, 0x5f, 0x30],
    {
        match self {
            Version::V0_1_0 => {
                let v: &'static [u8; 6] = &[0x56u8, 0x30, 0x5f, 0x31, 0x5f, 0x30];
                assert(v@ =~= seq![0x56u8, 0x30, 0x5f, 0x31, 0x5f, 0x30]);
                v
            },
        }
    }

    /// Reads a version from the next six bytes, moving past them.
    ///
    /// # Errors
    /// - [`VersionSerError::NotEnoughBytes`] if there are fewer than six bytes
    /// - [`VersionSerError::Invalid`] if they are not a known version
    pub fn from_bytes(cursor: &mut Cursor) -> (r: Result<Self, VersionSerError>)
        requires
            old(cursor).wf(),
        ensures
            final(cursor).wf(),
            final(cursor).items() == old(cursor).items(),
            old(cursor).rest().len() < 6 ==> (r matches Err(e) && e is NotEnoughBytes)
                && final(cursor).head() == old(cursor).head(),
            old(cursor).rest().len() >= 6 ==> final(cursor).head() == old(cursor).head() + 6 && (
            if old(cursor).rest().subrange(0, 6) == seq![0x56u8, 0x30, 0x5f, 0x31, 0x5f, 0x30] {
                r == Ok::<Version, VersionSerError>(Version::V0_1_0)
            } else {
                r matches Err(e) && e is Invalid
            }),
    {
        let ghost s = old(cursor).rest();
        let bytes = match cursor.read(6) {
            Some(b) => b,
            None => return Err(VersionSerError::NotEnoughBytes),
        };
        assert(bytes@ =~= s.subrange(0, 6));
        if bytes[0] == 0x56 && bytes[1] == 0x30 && bytes[2] == 0x5f && bytes[3] == 0x31
            && bytes[4] == 0x5f && bytes[5] == 0x30 {
            assert(bytes@ =~= seq![0x56u8, 0x30, 0x5f, 0x31, 0x5f, 0x30]);
            Ok(Version::V0_1_0)
        } else {
            Err(VersionSerError::Invalid)
        }
    }
}

} // verus!
