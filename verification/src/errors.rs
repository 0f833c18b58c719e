//! Error taxonomy of the sampling engine.

use vstd::prelude::*;

verus! {

/// Everything that can go wrong while resolving the tracked core set
/// or while turning raw source text into numeric samples.
///
/// - `SysfsError`: a per-core source could not be read (the message
///   comes from the caller that performed the read).
/// - `ProcfsError`: the aggregate source could not be read, or a
///   marker line was followed by a value line lacking the expected
///   `:` delimiter.
/// - `IntConversionError`: a numeric token did not parse; the payload
///   names the offending token.
/// - `InvalidCpuId`: a user-supplied core id was not a well-formed
///   non-negative integer; the payload names the offending token.
#[derive(Debug)]
pub enum ProbeError {
    SysfsError(String),
    ProcfsError(String),
    IntConversionError(String),
    InvalidCpuId(String),
}

impl ProbeError {
    /// Human-readable description, mirroring the variant documentation.
    pub fn message(&self) -> (r: String)
        ensures
            match self {
                ProbeError::SysfsError(s) => r@ == "sysfs error: "@ + s@,
                ProbeError::ProcfsError(s) => r@ == "procfs error: "@ + s@,
                ProbeError::IntConversionError(s) => r@ == "ID conversion error: "@ + s@
                    + " could not be converted to uint"@,
                ProbeError::InvalidCpuId(s) => r@ == "invalid cpu ID: "@ + s@,
            },
    {
        match self {
            ProbeError::SysfsError(s) => {
                let mut r = "sysfs error: ".to_owned();
                r.append(s.as_str());
                r
            },
            ProbeError::ProcfsError(s) => {
                let mut r = "procfs error: ".to_owned();
                r.append(s.as_str());
                r
            },
            ProbeError::IntConversionError(s) => {
                let mut r = "ID conversion error: ".to_owned();
                r.append(s.as_str());
                r.append(" could not be converted to uint");
                r
            },
            ProbeError::InvalidCpuId(s) => {
                let mut r = "invalid cpu ID: ".to_owned();
                r.append(s.as_str());
                r
            },
        }
    }
}

} // verus!
