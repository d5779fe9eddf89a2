//! What the delete command is told.

use vstd::prelude::*;

verus! {

/// The arguments of the delete command.
#[derive(Debug)]
pub struct DeleteArgs {
    /// The mods to delete, each with the version to delete behind it or without.
    pub mod_id: Vec<String>,
    /// Whether the mods in the backup directory are meant.
    pub mod_backups: bool,
    /// Whether the dependencies of a deleted mod go as well, as long as nothing else still needs
    /// them.
    pub with_deps: bool,
    /// Deletes all of a kind.
    pub all: Option<DeleteArgAllVals>,
}

/// What is deleted where all of a kind is.
#[derive(Debug, Clone, Copy, PartialEq, Eq, Structural)]
pub enum DeleteArgAllVals {
    Mods,
    Backups,
    Both,
}

impl DeleteArgAllVals {
    /// Whether all mods in the mod directory are deleted.
    pub fn covers_mods(&self) -> (r: bool)
        ensures
            r == (*self is Mods || *self is Both),
    {
        match self {
            DeleteArgAllVals::Mods => true,
            DeleteArgAllVals::Backups => false,
            DeleteArgAllVals::Both => true,
        }
    }

    /// Whether all mods in the backup directory are deleted.
    pub fn covers_backups(&self) -> (r: bool)
        ensures
            r == (*self is Backups || *self is Both),
    {
        match self {
            DeleteArgAllVals::Mods => false,
            DeleteArgAllVals::Backups => true,
            DeleteArgAllVals::Both => true,
        }
    }
}

} // verus!
