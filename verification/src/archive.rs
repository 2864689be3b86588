//! Unpacking a release archive.

use crate::error::{GenericError, ZipFault};
use std::io::Read;
use vstd::prelude::*;
use zip::result::ZipError;

verus! {

/// What reading the entry `name` out of the zip archive `archive` gives: its
/// unpacked bytes, or the reason why it cannot be had. It is what
/// `zip::ZipArchive` gives for these bytes and this name.
pub uninterp spec fn zip_entry(archive: Seq<u8>, name: Seq<char>) -> Result<Seq<u8>, ZipFault>;

/// Reads one entry of a zip archive held in memory, with
/// `zip::ZipArchive::new`, `by_name_decrypt` with an empty password, and
/// `read_to_end`. The result depends on the bytes and the name alone. An
/// entry that asks for a password counts as unsupported.
#[verifier::external_body]
fn read_zip_entry(archive: &[u8], name: &str) -> (r: Result<Vec<u8>, ZipFault>)
    ensures
        match r {
            Ok(bytes) => zip_entry(archive@, name@) == Ok::<Seq<u8>, ZipFault>(bytes@),
            Err(fault) => zip_entry(archive@, name@) == Err::<Seq<u8>, ZipFault>(fault),
        },
{
    let mut out = Vec::new();
    let res = (|| -> Result<usize, ZipError> {
        let mut ar = zip::ZipArchive::new(std::io::Cursor::new(archive))?;
        let found = ar.by_name_decrypt(name, &[])?;
        let mut file = found.map_err(|_| ZipError::UnsupportedArchive("password"))?;
        Ok(file.read_to_end(&mut out)?)
    })();
    match res {
        Ok(_) => Ok(out),
        Err(ZipError::Io(_)) => Err(ZipFault::Io),
        Err(ZipError::InvalidArchive(_)) => Err(ZipFault::InvalidArchive),
        Err(ZipError::UnsupportedArchive(_)) => Err(ZipFault::UnsupportedArchive),
        Err(ZipError::FileNotFound) => Err(ZipFault::FileNotFound),
    }
}

/// What unpacking gives, given what reading the entry gave.
pub open spec fn unpacked(read: Result<Seq<u8>, ZipFault>) -> Result<Seq<u8>, GenericError> {
    match read {
        Ok(bytes) => Ok(bytes),
        Err(fault) => Err(GenericError::ZipError(fault)),
    }
}

/// Turns what reading an entry gave into the result of unpacking.
pub fn unpack_result(read: Result<Vec<u8>, ZipFault>) -> (r: Result<Vec<u8>, GenericError>)
    ensures
        match read {
            Ok(bytes) => r == Ok::<Vec<u8>, GenericError>(bytes),
            Err(fault) => r == Err::<Vec<u8>, GenericError>(GenericError::ZipError(fault)),
        },
{
    match read {
        Ok(bytes) => Ok(bytes),
        Err(fault) => Err(GenericError::ZipError(fault)),
    }
}

/// Unpacks the entry `name` of a release archive: the executable that the
/// archive holds for the platform.
pub fn unpack(archive: &[u8], name: &str) -> (r: Result<Vec<u8>, GenericError>)
    ensures
        match unpacked(zip_entry(archive@, name@)) {
            Ok(bytes) => r is Ok && r->Ok_0@ == bytes,
            Err(e) => r == Err::<Vec<u8>, GenericError>(e),
        },
{
    unpack_result(read_zip_entry(archive, name))
}

} // verus!
