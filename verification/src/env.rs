//! The machine that a sync runs on.
use vstd::prelude::*;

verus! {

/// Operating system, host name and architecture of the running machine.
#[derive(Debug, Clone)]
pub struct Environment {
    pub os: String,
    pub hostname: String,
    pub arch: String,
}

/// The machine's host name from `hostname::get`, converted lossily from the
/// operating system's string, and empty when the call fails. The contract
/// claims nothing about the name: it depends on the machine.
#[verifier::external_body]
fn machine_host_name() -> String {
    hostname::get().unwrap_or_default().to_string_lossy().into_owned()
}

impl Environment {
    /// The running machine, given the operating system and architecture names
    /// that the build targets; the host name is asked of the system.
    pub fn current(os: &str, arch: &str) -> (r: Environment)
        ensures
            r.os@ == os@,
            r.arch@ == arch@,
    {
        let hostname = machine_host_name();
        Environment { os: os.to_owned(), hostname, arch: arch.to_owned() }
    }
}

} // verus!
