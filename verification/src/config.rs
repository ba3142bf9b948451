//! Configuration switches for the planner and the store.
//!
//! The canonical behaviour is strict compare-and-swap, reads before links
//! on update, and a reverse-sequential unlink chain on remove; the other
//! variants are kept as explicit configuration.

use vstd::prelude::*;

verus! {

/// How an update operation orders its reads against its link writes.
#[derive(Clone, Copy, Debug, PartialEq, Eq, Structural)]
pub enum Update {
    ReadsBeforeLinks,
    GetBeforePut,
}

/// How a remove operation orders the unlinks of the emptied ancestors.
#[derive(Clone, Copy, Debug, PartialEq, Eq, Structural)]
pub enum Remove {
    UnlinkReverseSequential,
    UnlinkParallel,
}

/// How the store applies its compare-and-swap rule to tombstoned keys.
#[derive(Clone, Copy, Debug, PartialEq, Eq, Structural)]
pub enum Cas {
    Strict,
    LaxDelete,
}

#[derive(Clone, Copy, Debug, PartialEq, Eq, Structural)]
pub struct Config {
    pub update: Update,
    pub remove: Remove,
    pub skip_links: bool,
    pub store: Cas,
}

impl Default for Config {
    fn default() -> (r: Config)
        ensures
            r == Config::canonical(),
    {
        Config {
            update: Update::ReadsBeforeLinks,
            remove: Remove::UnlinkReverseSequential,
            skip_links: false,
            store: Cas::Strict,
        }
    }
}

impl Config {
    /// The default configuration: strict CAS, reads before links,
    /// reverse-sequential unlinks, no link skipping.
    pub open spec fn canonical() -> Config {
        Config {
            update: Update::ReadsBeforeLinks,
            remove: Remove::UnlinkReverseSequential,
            skip_links: false,
            store: Cas::Strict,
        }
    }

    pub fn new() -> (r: Config)
        ensures
            r == Config::canonical(),
    {
        Config::default()
    }

    pub fn update(self, mode: Update) -> (r: Config)
        ensures
            r == (Config { update: mode, ..self }),
    {
        Config { update: mode, ..self }
    }

    pub fn remove(self, mode: Remove) -> (r: Config)
        ensures
            r == (Config { remove: mode, ..self }),
    {
        Config { remove: mode, ..self }
    }

    pub fn skip_links(self, mode: bool) -> (r: Config)
        ensures
            r == (Config { skip_links: mode, ..self }),
    {
        Config { skip_links: mode, ..self }
    }

    pub fn store(self, mode: Cas) -> (r: Config)
        ensures
            r == (Config { store: mode, ..self }),
    {
        Config { store: mode, ..self }
    }
}

} // verus!
