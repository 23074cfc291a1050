//! The failures a calendar build can end in.
use vstd::prelude::*;

verus! {

/// Why a build failed; each carries a description for the operator's log.
#[derive(Clone, Debug, PartialEq, Eq)]
pub enum Error {
    /// A source could not be fetched.
    Reqwest(String),
    /// A source's text is not a calendar.
    ParseCalender(String),
    /// The environment does not hold a valid configuration.
    Envy(String),
    /// The server could not bind or serve.
    IO(String),
    /// The configuration's options contradict each other.
    Config(String),
}

} // verus!
