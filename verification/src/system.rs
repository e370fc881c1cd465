//! What the library asks of the machine it runs on: the home directory,
//! whether a program is installed, fresh identifiers and the current time.
//! Each result depends on the machine, the environment or chance, so no
//! contract states its value.
use vstd::prelude::*;

verus! {

/// `dirs::home_dir`: the current user's home directory, if the platform has
/// one, as text. Nothing is stated of its value: it depends on the environment.
#[verifier::external_body]
pub(crate) fn home_dir() -> (r: Option<String>) {
    dirs::home_dir().map(|p| p.to_string_lossy().into_owned())
}

/// `which::which`: whether an executable named `program` is found on the
/// search path. Nothing is stated of the answer: it depends on the machine.
#[verifier::external_body]
pub(crate) fn program_available(program: &str) -> (r: bool) {
    which::which(program).is_ok()
}

/// `uuid::Uuid::new_v4`, written out: a random identifier. Nothing is stated
/// of its value.
#[verifier::external_body]
pub(crate) fn new_id() -> (r: String) {
    uuid::Uuid::new_v4().to_string()
}

/// `chrono::Utc::now`, as whole seconds since the Unix epoch. Nothing is
/// stated of its value.
#[verifier::external_body]
pub(crate) fn now_seconds() -> (r: i64) {
    chrono::Utc::now().timestamp()
}


/// `chrono::Utc::now().to_rfc3339()`: the current time in RFC 3339 form.
/// Nothing is stated of its value.
#[verifier::external_body]
pub(crate) fn now_rfc3339() -> (r: String) {
    chrono::Utc::now().to_rfc3339()
}

}
