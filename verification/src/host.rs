//! The name of the machine.

use vstd::prelude::*;

verus! {

/// `hostname::get`, as text. Trusted, and with nothing promised of the
/// result: the name comes from the operating system, and it is `None` when
/// the system gives none or gives one that is not Unicode.
#[verifier::external_body]
pub(crate) fn local_hostname() -> (name: Option<String>) {
    hostname::get().ok().and_then(|h| h.into_string().ok())
}

} // verus!
