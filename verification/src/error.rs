//! The ways in which profiling and tracking fail.
use vstd::prelude::*;

verus! {

/// The error type of the standard library's I/O operations. A value of it is
/// carried through unchanged; nothing is known of what it holds.
#[verifier::external_type_specification]
#[verifier::external_body]
pub struct ExIoError(std::io::Error);

/// Why an operation of the engine or the tracker gave up.
#[derive(Debug)]
pub enum Error {
    /// A remote read or write, or the sending of a packet, failed.
    Transport(std::io::Error),
    /// The address pool is too small to seed another eviction set.
    Exhausted,
    /// No prefix of the address pool evicts the chosen address.
    NoEviction,
    /// The set handed to backward selection has fewer addresses than the
    /// cache has reachable ways.
    NarrowedBelowMinimum,
    /// A sibling set of a color could not be derived.
    DerivationFailed,
    /// A set without any address was handed in to be tested for uniqueness.
    EmptySet,
    /// The receive ring could not be located, in all the tries allowed.
    NotLocated,
    /// A timing could not be added to the classifier.
    Unrecordable,
    /// No color, or more than one, shows a pattern; or a position of the
    /// pattern has no strict maximum.
    Indecisive,
    /// No probe of the window registered an activation.
    Unrecoverable,
    /// Tracking was asked for before the receive ring was located.
    Uninitialized,
    /// The builder lacks a collaborator.
    BuilderIncomplete,
    /// The awaited activation did not come within the probes allowed.
    NoActivation,
}

impl Error {
    /// What is told of the failure.
    pub open spec fn text(&self) -> Seq<char> {
        match self {
            Error::Transport(_) => "ERROR: the connection failed"@,
            Error::Exhausted => "ERROR: No addrs left"@,
            Error::NoEviction => "ERROR: cannot build set for the chosen address."@,
            Error::NarrowedBelowMinimum => "ERROR: the initial set for backwards selection is too narrow."@,
            Error::DerivationFailed => "ERROR: could not derive sets"@,
            Error::EmptySet => "ERROR: Eviction set is empty"@,
            Error::NotLocated => "ERROR: INITIALIZATION FAILED. Could not locate RX buffer in memory"@,
            Error::Unrecordable => "ERROR: could not record a timing"@,
            Error::Indecisive => "ERROR: Cannot decide on pattern"@,
            Error::Unrecoverable => "ERROR: Cannot recover position"@,
            Error::Uninitialized => "ERROR: Online tracker is not initialized. Call init()."@,
            Error::BuilderIncomplete => "ERROR: connector, output or packet sender is not set"@,
            Error::NoActivation => "ERROR: Cannot determine the initial position in RX"@,
        }
    }

    /// Returns what is told of the failure. Of a failure of the connection
    /// the cause, which is carried along, tells more.
    pub fn message(&self) -> (m: &'static str)
        ensures
            m@ == self.text(),
    {
        match self {
            Error::Transport(_) => "ERROR: the connection failed",
            Error::Exhausted => "ERROR: No addrs left",
            Error::NoEviction => "ERROR: cannot build set for the chosen address.",
            Error::NarrowedBelowMinimum => "ERROR: the initial set for backwards selection is too narrow.",
            Error::DerivationFailed => "ERROR: could not derive sets",
            Error::EmptySet => "ERROR: Eviction set is empty",
            Error::NotLocated => "ERROR: INITIALIZATION FAILED. Could not locate RX buffer in memory",
            Error::Unrecordable => "ERROR: could not record a timing",
            Error::Indecisive => "ERROR: Cannot decide on pattern",
            Error::Unrecoverable => "ERROR: Cannot recover position",
            Error::Uninitialized => "ERROR: Online tracker is not initialized. Call init().",
            Error::BuilderIncomplete => "ERROR: connector, output or packet sender is not set",
            Error::NoActivation => "ERROR: Cannot determine the initial position in RX",
        }
    }
}

} // verus!
