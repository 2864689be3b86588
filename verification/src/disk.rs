//! The files that the registry works on, held in memory.
//!
//! A `Disk` holds the content of the three well-known files as the caller
//! read them, and a journal of the changes made since. The operations of this
//! crate change the `Disk`; the caller then carries out the journal on the
//! real files, in order, and stops at the first change that fails.

use crate::error::{GenericError, IoFault};
use vstd::prelude::*;
use vstd::slice::slice_to_vec;

verus! {

/// The well-known files.
#[derive(Clone, Copy, Debug, PartialEq, Eq, Structural)]
pub enum Slot {
    /// The active hosts file of the machine.
    Hosts,
    /// The backup of the user's hosts file. It exists exactly while the
    /// block-list is installed.
    Backup,
    /// The staging file of the updater.
    Staging,
}

/// A change to the files.
pub enum Change {
    /// The file gets this content, all at once: written beside the file
    /// and then renamed over it, so that no reader sees half of it.
    Write { slot: Slot, content: Seq<u8> },
    /// The file `to` gets the content of `from`, byte for byte.
    Copy { from: Slot, to: Slot },
    /// The file is deleted.
    Remove { slot: Slot },
}

/// A change to the files, as the caller carries it out.
#[derive(Clone, Debug, PartialEq, Eq)]
pub enum Effect {
    /// Write `content` beside the file and rename it over the file.
    Write { slot: Slot, content: Vec<u8> },
    /// Copy the file `from` over the file `to`.
    Copy { from: Slot, to: Slot },
    /// Delete the file.
    Remove { slot: Slot },
}

impl View for Effect {
    type V = Change;

    open spec fn view(&self) -> Change {
        match self {
            Effect::Write { slot, content } => Change::Write { slot: *slot, content: content@ },
            Effect::Copy { from, to } => Change::Copy { from: *from, to: *to },
            Effect::Remove { slot } => Change::Remove { slot: *slot },
        }
    }
}

/// The content of a file that may be missing.
pub open spec fn content_of(file: Option<Vec<u8>>) -> Option<Seq<u8>> {
    match file {
        Some(bytes) => Some(bytes@),
        None => None,
    }
}

/// The changes that `effects` stand for.
pub open spec fn changes_of(effects: Seq<Effect>) -> Seq<Change> {
    Seq::new(effects.len(), |i: int| effects[i]@)
}

/// The state of the files: what each holds, if it exists, and the changes
/// that were made but not yet carried out.
pub struct DiskState {
    pub hosts: Option<Seq<u8>>,
    pub backup: Option<Seq<u8>>,
    pub staging: Option<Seq<u8>>,
    pub pending: Seq<Change>,
}

impl DiskState {
    /// The content of a file, if it exists.
    pub open spec fn get(self, slot: Slot) -> Option<Seq<u8>> {
        match slot {
            Slot::Hosts => self.hosts,
            Slot::Backup => self.backup,
            Slot::Staging => self.staging,
        }
    }

    /// The state with one file replaced and the journal as it was.
    pub open spec fn with(self, slot: Slot, file: Option<Seq<u8>>) -> DiskState {
        match slot {
            Slot::Hosts => DiskState { hosts: file, ..self },
            Slot::Backup => DiskState { backup: file, ..self },
            Slot::Staging => DiskState { staging: file, ..self },
        }
    }

    /// The state with one more change in the journal.
    pub open spec fn noting(self, change: Change) -> DiskState {
        DiskState { pending: self.pending.push(change), ..self }
    }

    /// The state after a file was written.
    pub open spec fn write(self, slot: Slot, content: Seq<u8>) -> DiskState {
        self.with(slot, Some(content)).noting(Change::Write { slot, content })
    }

    /// The state after a file that exists was copied over another.
    pub open spec fn copy(self, from: Slot, to: Slot) -> DiskState {
        self.with(to, self.get(from)).noting(Change::Copy { from, to })
    }

    /// The state after a file was deleted.
    pub open spec fn remove(self, slot: Slot) -> DiskState {
        self.with(slot, None).noting(Change::Remove { slot })
    }
}

/// The files in memory, with the journal of changes to carry out.
#[derive(Clone, Debug, PartialEq, Eq)]
pub struct Disk {
    hosts: Option<Vec<u8>>,
    backup: Option<Vec<u8>>,
    staging: Option<Vec<u8>>,
    pending: Vec<Effect>,
}

impl View for Disk {
    type V = DiskState;

    closed spec fn view(&self) -> DiskState {
        DiskState {
            hosts: content_of(self.hosts),
            backup: content_of(self.backup),
            staging: content_of(self.staging),
            pending: changes_of(self.pending@),
        }
    }
}

impl Disk {
    /// The files as they were read: `None` stands for a file that does not
    /// exist. The journal is empty.
    pub fn new(hosts: Option<Vec<u8>>, backup: Option<Vec<u8>>, staging: Option<Vec<u8>>) -> (r:
        Disk)
        ensures
            r@ == (DiskState {
                hosts: content_of(hosts),
                backup: content_of(backup),
                staging: content_of(staging),
                pending: Seq::empty(),
            }),
    {
        let r = Disk { hosts, backup, staging, pending: Vec::new() };
        assert(changes_of(r.pending@) =~= Seq::<Change>::empty());
        r
    }

    /// Whether a file exists.
    pub fn has(&self, slot: Slot) -> (r: bool)
        ensures
            r == self@.get(slot) is Some,
    {
        match slot {
            Slot::Hosts => self.hosts.is_some(),
            Slot::Backup => self.backup.is_some(),
            Slot::Staging => self.staging.is_some(),
        }
    }

    /// The content of a file, if it exists.
    pub fn read(&self, slot: Slot) -> (r: &Option<Vec<u8>>)
        ensures
            content_of(*r) == self@.get(slot),
    {
        match slot {
            Slot::Hosts => &self.hosts,
            Slot::Backup => &self.backup,
            Slot::Staging => &self.staging,
        }
    }

    /// The changes that were made and not yet taken, oldest first.
    pub fn pending(&self) -> (r: &Vec<Effect>)
        ensures
            changes_of(r@) == self@.pending,
    {
        &self.pending
    }

    /// Takes the journal for carrying out, and leaves it empty.
    pub fn take_pending(&mut self) -> (r: Vec<Effect>)
        ensures
            changes_of(r@) == old(self)@.pending,
            final(self)@ == (DiskState { pending: Seq::empty(), ..old(self)@ }),
    {
        let mut taken: Vec<Effect> = Vec::new();
        core::mem::swap(&mut self.pending, &mut taken);
        assert(changes_of(self.pending@) =~= Seq::<Change>::empty());
        taken
    }

    fn put(&mut self, slot: Slot, file: Option<Vec<u8>>)
        ensures
            final(self)@ == old(self)@.with(slot, content_of(file)),
    {
        match slot {
            Slot::Hosts => {
                self.hosts = file;
            },
            Slot::Backup => {
                self.backup = file;
            },
            Slot::Staging => {
                self.staging = file;
            },
        }
    }

    fn note(&mut self, effect: Effect)
        ensures
            final(self)@ == old(self)@.noting(effect@),
    {
        self.pending.push(effect);
        assert(changes_of(self.pending@) =~= changes_of(old(self).pending@).push(effect@));
    }

    /// Writes a file.
    pub fn write(&mut self, slot: Slot, content: Vec<u8>)
        ensures
            final(self)@ == old(self)@.write(slot, content@),
    {
        let copy = slice_to_vec(content.as_slice());
        self.put(slot, Some(content));
        self.note(Effect::Write { slot, content: copy });
    }

    /// Copies the file `from` over the file `to`. Fails, and changes
    /// nothing, when `from` does not exist.
    pub fn copy(&mut self, from: Slot, to: Slot) -> (r: Result<(), GenericError>)
        ensures
            match old(self)@.get(from) {
                Some(_) => r is Ok && final(self)@ == old(self)@.copy(from, to),
                None => r == Err::<(), GenericError>(GenericError::IOError(IoFault::NotFound))
                    && final(self)@ == old(self)@,
            },
    {
        let copy = match self.read(from) {
            Some(bytes) => slice_to_vec(bytes.as_slice()),
            None => {
                return Err(GenericError::IOError(IoFault::NotFound));
            },
        };
        self.put(to, Some(copy));
        self.note(Effect::Copy { from, to });
        Ok(())
    }

    /// Deletes a file. Fails, and changes nothing, when it does not exist.
    pub fn remove(&mut self, slot: Slot) -> (r: Result<(), GenericError>)
        ensures
            match old(self)@.get(slot) {
                Some(_) => r is Ok && final(self)@ == old(self)@.remove(slot),
                None => r == Err::<(), GenericError>(GenericError::IOError(IoFault::NotFound))
                    && final(self)@ == old(self)@,
            },
    {
        if !self.has(slot) {
            return Err(GenericError::IOError(IoFault::NotFound));
        }
        self.put(slot, None);
        self.note(Effect::Remove { slot });
        Ok(())
    }
}

} // verus!
