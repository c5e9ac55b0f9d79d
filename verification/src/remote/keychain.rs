//! Secrets in the OS keychain: what reading, writing and removing them comes to.
use vstd::prelude::*;
use vstd::string::*;

verus! {

/// The service that the secrets of servers are filed under.
pub const KEYCHAIN_SERVICE: &'static str = "com.ckourse.app.server";

/// Why the keychain did not do what it was asked.
#[derive(Debug)]
pub struct KeychainError {
    /// There is no entry for the server.
    pub no_entry: bool,
    pub message: String,
}

fn report(what: &str, e: &str) -> (r: String)
    ensures
        r@ == what@ + e@,
{
    let mut r: String = what.to_owned();
    r.append(e);
    r
}

/// The report of a keychain that cannot be reached.
pub fn unavailable(e: &str) -> (r: String)
    ensures
        r@ == "Keychain unavailable: "@ + e@,
{
    report("Keychain unavailable: ", e)
}

/// What writing the secrets of a server comes to.
pub fn store_secrets(written: Result<(), KeychainError>) -> (r: Result<(), String>)
    ensures
        match written {
            Ok(_) => r is Ok,
            Err(e) => r is Err && r->Err_0@ == "Couldn't save credentials to the keychain: "@
                + e.message@,
        },
{
    match written {
        Ok(_) => Ok(()),
        Err(e) => Err(
            report("Couldn't save credentials to the keychain: ", e.message.as_str()),
        ),
    }
}

/// What reading the secrets of a server comes to: the text they are stored as, if they
/// are stored. A server without an entry has no secrets, which is no error.
pub fn load_secrets(read: Result<String, KeychainError>) -> (r: Result<Option<String>, String>)
    ensures
        match read {
            Ok(json) => r == Ok::<Option<String>, String>(Some(json)),
            Err(e) => if e.no_entry {
                r == Ok::<Option<String>, String>(None)
            } else {
                r is Err && r->Err_0@ == "Couldn't read credentials from the keychain: "@
                    + e.message@
            },
        },
{
    match read {
        Ok(json) => Ok(Some(json)),
        Err(e) => if e.no_entry {
            Ok(None)
        } else {
            Err(report("Couldn't read credentials from the keychain: ", e.message.as_str()))
        },
    }
}

/// What removing the secrets of a server comes to. That there were none is no error.
pub fn delete_secrets(removed: Result<(), KeychainError>) -> (r: Result<(), String>)
    ensures
        match removed {
            Ok(_) => r is Ok,
            Err(e) => if e.no_entry {
                r is Ok
            } else {
                r is Err && r->Err_0@ == "Couldn't remove credentials from the keychain: "@
                    + e.message@
            },
        },
{
    match removed {
        Ok(_) => Ok(()),
        Err(e) => if e.no_entry {
            Ok(())
        } else {
            Err(report("Couldn't remove credentials from the keychain: ", e.message.as_str()))
        },
    }
}

} // verus!
