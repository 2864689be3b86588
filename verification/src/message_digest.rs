//! Checksums of release artifacts.

use crate::disk::{Disk, Slot};
use crate::error::{GenericError, IoFault};
use crate::hosts::bytes_eq;
use vstd::prelude::*;

verus! {

/// The MD5 digest of a byte string: the 16 bytes that `md5::compute` gives
/// for it.
pub uninterp spec fn md5_of(data: Seq<u8>) -> Seq<u8>;

/// Computes the MD5 digest of `data` with `md5::compute`. The digest has 16
/// bytes and depends on `data` alone.
#[verifier::external_body]
fn md5_digest(data: &[u8]) -> (digest: Vec<u8>)
    ensures
        digest@ == md5_of(data@),
        digest@.len() == 16,
{
    md5::compute(data).0.to_vec()
}

/// The lower-case hex digit for a number below 16.
pub open spec fn hex_digit(n: u8) -> u8 {
    if n < 10 {
        (0x30 + n) as u8
    } else {
        (0x57 + n) as u8
    }
}

/// The lower-case hex form of a byte string: two digits per byte, the high
/// one first.
pub open spec fn hex_lower(data: Seq<u8>) -> Seq<u8>
    decreases data.len(),
{
    if data.len() == 0 {
        Seq::empty()
    } else {
        hex_lower(data.drop_last()) + seq![
            hex_digit(data.last() / 16),
            hex_digit(data.last() % 16),
        ]
    }
}

/// Writes a byte string in lower-case hex.
pub fn to_hex(data: &[u8]) -> (out: Vec<u8>)
    ensures
        out@ == hex_lower(data@),
{
    let n: usize = data.len();
    let mut out: Vec<u8> = Vec::new();
    let mut i: usize = 0;
    assert(data@.take(0) =~= Seq::<u8>::empty());
    while i < n
        invariant
            n == data@.len(),
            i <= n,
            out@ == hex_lower(data@.take(i as int)),
        decreases n - i,
    {
        let b: u8 = data[i];
        let high: u8 = b / 16;
        let low: u8 = b % 16;
        let ghost before = out@;
        out.push(if high < 10 { 0x30 + high } else { 0x57 + high });
        out.push(if low < 10 { 0x30 + low } else { 0x57 + low });
        proof {
            assert(data@.take(i + 1).drop_last() =~= data@.take(i as int));
            assert(data@.take(i + 1).last() == b);
            assert(out@ =~= before + seq![hex_digit(high), hex_digit(low)]);
        }
        i = i + 1;
    }
    assert(data@.take(n as int) =~= data@);
    out
}

/// Whether `digest`, written in lower-case hex, is the checksum `declared`.
pub fn digest_matches(digest: &[u8], declared: &[u8]) -> (r: bool)
    ensures
        r == (hex_lower(digest@) == declared@),
{
    let hex = to_hex(digest);
    bytes_eq(hex.as_slice(), declared)
}

/// Whether the MD5 digest of `content`, in lower-case hex, is the checksum
/// `declared`.
pub fn checksum_matches(content: &[u8], declared: &[u8]) -> (r: bool)
    ensures
        r == (hex_lower(md5_of(content@)) == declared@),
{
    let digest = md5_digest(content);
    digest_matches(digest.as_slice(), declared)
}

/// The MD5 digest of a file. Fails when the file does not exist.
pub fn md5_digest_of_file(disk: &Disk, slot: Slot) -> (r: Result<Vec<u8>, GenericError>)
    ensures
        match disk@.get(slot) {
            Some(content) => r is Ok && r->Ok_0@ == md5_of(content),
            None => r == Err::<Vec<u8>, GenericError>(GenericError::IOError(IoFault::NotFound)),
        },
{
    match disk.read(slot) {
        Some(content) => Ok(md5_digest(content.as_slice())),
        None => Err(GenericError::IOError(IoFault::NotFound)),
    }
}

} // verus!
