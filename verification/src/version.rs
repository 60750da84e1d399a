//! The versions of the serialisation format.
use vstd::prelude::*;
use crate::utilities::cursor::Cursor;

verus! {

/// A version of the serialisation format.
#[derive(Copy, Clone, Debug, PartialEq, Eq, Structural)]
pub enum Version {
    /// Version 0.1.0.
    V0_1_0,
}

/// An error when reading a version.
#[derive(Debug)]
pub enum VersionSerError {
    /// The bytes were not a known version.
    Invalid,
    /// There were fewer than six bytes.
    NotEnoughBytes,
}

/// The six bytes that stand for each version: `V0_1_0` in ASCII.
pub open spec fn version_bytes(v: Version) -> Seq<u8> {
    match v {
        Version::V0_1_0 => seq![0x56u8, 0x30, 0x5f, 0x31, 0x5f, 0x30],
    }
}

impl Version {
    /// The bytes that stand for this version.
    pub fn to_bytes(self) -> (r: &'static [u8])
        ensures
            r@ == version_bytes(self),
    {
        match self {
            Version::V0_1_0 => {
                let v: &'static [u8; 6] = &[0x56u8, 0x30, 0x5f, 0x31, 0x5f, 0x30];
                assert(v@ =~= version_bytes(self));
                v
            },
        }
    }

    /// Reads a version from the next six bytes.
    ///
    /// # Errors
    /// - [`VersionSerError::NotEnoughBytes`] if there are fewer than six bytes
    /// - [`VersionSerError::Invalid`] if they are not a known version
    pub fn from_bytes(cursor: &mut Cursor<u8>) -> (r: Result<Self, VersionSerError>)
        requires
            old(cursor).wf(),
        ensures
            final(cursor).wf(),
            final(cursor).items() == old(cursor).items(),
            old(cursor).rest().len() < 6 ==> (r matches Err(e) && e is NotEnoughBytes)
                && final(cursor).head() == old(cursor).head(),
            old(cursor).rest().len() >= 6 ==> final(cursor).head() == old(cursor).head() + 6 && ({
                let b = old(cursor).rest().subrange(0, 6);
                if b == version_bytes(Version::V0_1_0) {
                    r == Ok::<Version, VersionSerError>(Version::V0_1_0)
                } else {
                    r matches Err(e) && e is Invalid
                }
            }),
    {
        let ghost s = old(cursor).rest();
        let bytes = match cursor.read(6) {
            Some(b) => b,
            None => return Err(VersionSerError::NotEnoughBytes),
        };
        proof {
            assert(bytes@ =~= s.subrange(0, 6));
        }
        if bytes[0] == 0x56 && bytes[1] == 0x30 && bytes[2] == 0x5f && bytes[3] == 0x31
            && bytes[4] == 0x5f && bytes[5] == 0x30 {
            proof {
                assert(bytes@ =~= version_bytes(Version::V0_1_0));
            }
            Ok(Version::V0_1_0)
        } else {
            Err(VersionSerError::Invalid)
        }
    }
}

/// Reading back the bytes of a version gives the same version.
pub proof fn lemma_version_roundtrip(v: Version, rest: Seq<u8>)
    ensures
        (version_bytes(v) + rest).subrange(0, 6) == version_bytes(Version::V0_1_0),
        v == Version::V0_1_0,
{
    assert((version_bytes(v) + rest).subrange(0, 6) =~= version_bytes(v));
}

} // verus!
