use vstd::prelude::*;

verus! {

/// Failure modes surfaced by the fingerprinting core.
#[derive(Clone, Copy, Debug, PartialEq, Eq, Structural)]
pub enum Error {
    /// WAV header malformed, non-mono, or buffer shorter than declared.
    InvalidHeader,
    /// Configuration knobs violate their preconditions (or do not fit the
    /// recording's sample rate).
    InvalidConfig,
    /// Fewer than two slices after framing (or more than fit a 32-bit slice
    /// index): no anchor/target pair can be formed.
    UnsupportedShape,
}

impl Error {
    /// A short display label, since the error is shown at the reporting
    /// boundary.
    pub fn describe(&self) -> (r: &'static str)
        ensures
            self is InvalidHeader ==> r@ == "invalid WAV header"@,
            self is InvalidConfig ==> r@ == "invalid configuration"@,
            self is UnsupportedShape ==> r@ == "recording too short to fingerprint"@,
    {
        match self {
            Error::InvalidHeader => "invalid WAV header",
            Error::InvalidConfig => "invalid configuration",
            Error::UnsupportedShape => "recording too short to fingerprint",
        }
    }
}

} // verus!
