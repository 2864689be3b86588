//! Installing and removing the block-list.
//!
//! The block-list is installed exactly while the backup file exists. The
//! first install saves the user's entries in the backup; every install
//! writes the block-list merged with the entries of the backup to the hosts
//! file; uninstall copies the backup back and deletes it. An operation that
//! fails changes nothing.

use crate::disk::{Disk, DiskState, Slot};
use crate::error::{GenericError, IoFault};
use crate::hosts::merge_all;
use crate::parser::{parse_hosts_from_file, parse_hosts_from_str, parse_spec, read_hosts, read_spec};
use crate::writer::{render, render_hosts};
use vstd::prelude::*;
use vstd::string::StringSliceAdditionalSpecFns;

verus! {

/// The state after a backup: the backup file holds the entries of the hosts
/// file under `header`. Fails when the hosts file cannot be read as one.
pub open spec fn backup_spec(s: DiskState, header: Seq<u8>) -> Result<DiskState, GenericError> {
    match read_spec(s.hosts) {
        Ok(entries) => Ok(s.write(Slot::Backup, render(header, entries))),
        Err(e) => Err(e),
    }
}

/// The state after an install of the entries of `source`: a backup is made
/// first unless there is one, and the hosts file then holds, under
/// `header`, the entries of `source` with those of the backup merged in.
pub open spec fn install_spec(
    s: DiskState,
    source: Seq<u8>,
    header: Seq<u8>,
    original_header: Seq<u8>,
) -> Result<DiskState, GenericError> {
    let backed = if s.backup is Some {
        Ok(s)
    } else {
        backup_spec(s, original_header)
    };
    match backed {
        Err(e) => Err(e),
        Ok(b) => match parse_spec(source) {
            Err(e) => Err(GenericError::ParseError(e)),
            Ok(candidate) => match read_spec(b.backup) {
                Err(e) => Err(e),
                Ok(original) => Ok(
                    b.write(Slot::Hosts, render(header, merge_all(candidate, original))),
                ),
            },
        },
    }
}

/// The state with the staging file deleted, if there was one.
pub open spec fn without_staging(s: DiskState) -> DiskState {
    if s.staging is Some {
        s.remove(Slot::Staging)
    } else {
        s
    }
}

/// The state after an uninstall: the backup is copied over the hosts file,
/// then the staging file is deleted, then the backup. Fails when there is no
/// backup.
pub open spec fn uninstall_spec(s: DiskState) -> Result<DiskState, GenericError> {
    if s.backup is Some {
        Ok(without_staging(s.copy(Slot::Backup, Slot::Hosts)).remove(Slot::Backup))
    } else {
        Err(GenericError::IOError(IoFault::NotFound))
    }
}

/// Whether the backup file exists.
pub fn is_backed(disk: &Disk) -> (r: bool)
    ensures
        r == disk@.backup is Some,
{
    disk.has(Slot::Backup)
}

/// Whether the block-list is installed, which is: whether the backup file
/// exists.
pub fn is_installed(disk: &Disk) -> (r: bool)
    ensures
        r == disk@.backup is Some,
{
    is_backed(disk)
}

/// Deletes the staging file if it exists.
pub fn remove_temp_file(disk: &mut Disk)
    ensures
        final(disk)@ == without_staging(old(disk)@),
{
    if disk.has(Slot::Staging) {
        let _ = disk.remove(Slot::Staging);
    }
}

/// Saves the entries of the hosts file, under `header`, in the backup file.
///
/// Fails, and changes nothing, when the hosts file is missing, not UTF-8 or
/// malformed.
pub fn backup(disk: &mut Disk, header: &str) -> (r: Result<(), GenericError>)
    requires
        old(disk)@.backup is None,
    ensures
        match backup_spec(old(disk)@, header.spec_bytes()) {
            Ok(after) => r is Ok && final(disk)@ == after,
            Err(e) => r == Err::<(), GenericError>(e) && final(disk)@ == old(disk)@,
        },
{
    match parse_hosts_from_file(disk, Slot::Hosts) {
        Err(e) => Err(e),
        Ok(own) => {
            let text = render_hosts(&own, header.as_bytes());
            disk.write(Slot::Backup, text);
            Ok(())
        },
    }
}

/// Installs the entries of `source`: makes the backup under
/// `original_header` unless there is one, and writes the entries of `source`
/// with those of the backup merged in, under `header`, to the hosts file.
///
/// Fails, and changes nothing, when the backup cannot be made, when `source`
/// is malformed, or when the backup cannot be read.
pub fn install(disk: &mut Disk, source: &str, header: &str, original_header: &str) -> (r: Result<
    (),
    GenericError,
>)
    ensures
        match install_spec(
            old(disk)@,
            source.spec_bytes(),
            header.spec_bytes(),
            original_header.spec_bytes(),
        ) {
            Ok(after) => r is Ok && final(disk)@ == after,
            Err(e) => r == Err::<(), GenericError>(e) && final(disk)@ == old(disk)@,
        },
{
    let saved: Option<Vec<u8>> = if is_backed(disk) {
        None
    } else {
        match parse_hosts_from_file(disk, Slot::Hosts) {
            Err(e) => {
                return Err(e);
            },
            Ok(own) => Some(render_hosts(&own, original_header.as_bytes())),
        }
    };
    let mut merged = match parse_hosts_from_str(source) {
        Err(e) => {
            return Err(GenericError::ParseError(e));
        },
        Ok(candidate) => candidate,
    };
    let original = if saved.is_some() {
        read_hosts(&saved)
    } else {
        parse_hosts_from_file(disk, Slot::Backup)
    };
    match original {
        Err(e) => Err(e),
        Ok(original) => {
            merged.append(&original);
            let text = render_hosts(&merged, header.as_bytes());
            match saved {
                Some(copy) => {
                    disk.write(Slot::Backup, copy);
                },
                None => {},
            }
            disk.write(Slot::Hosts, text);
            Ok(())
        },
    }
}

/// Removes the block-list: copies the backup over the hosts file, byte for
/// byte, then deletes the staging file if there is one, then the backup.
///
/// Fails, and changes nothing, when there is no backup.
pub fn uninstall(disk: &mut Disk) -> (r: Result<(), GenericError>)
    ensures
        match uninstall_spec(old(disk)@) {
            Ok(after) => r is Ok && final(disk)@ == after,
            Err(e) => r == Err::<(), GenericError>(e) && final(disk)@ == old(disk)@,
        },
{
    match disk.copy(Slot::Backup, Slot::Hosts) {
        Err(e) => Err(e),
        Ok(()) => {
            remove_temp_file(disk);
            disk.remove(Slot::Backup)
        },
    }
}

} // verus!
