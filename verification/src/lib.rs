//! Multi-tenant content-addressed blob storage: buckets authenticate with
//! issued keys, upload byte objects that are deduplicated by checksum, and
//! share physical storage through reference-counted bindings.
use vstd::prelude::*;

pub mod auth;
pub mod checksum;
pub mod errors;
pub mod files;
pub mod text;

verus! {

/// What lowercasing concludes for a text. A pure function of the text.
pub uninterp spec fn lower_of(s: Seq<char>) -> Seq<char>;

/// Relies on std's `str::to_lowercase`: the result depends on the characters
/// alone.
#[verifier::external_body]
fn to_lowercase(s: &str) -> (r: String)
    ensures
        r@ == lower_of(s@),
{
    s.to_lowercase()
}

/// Which configuration the process runs under.
#[derive(Debug, PartialEq, Eq, Structural)]
pub enum Environment {
    Development,
    Production,
}

impl Environment {
    /// Reads an environment name, case-insensitively: `development`/`dev`
    /// and `production`/`prod` are the two configurations; anything else is
    /// refused with a message naming what was read.
    pub fn try_from(value: String) -> (r: Result<Environment, String>)
        ensures
            match r {
                Ok(Environment::Development) => lower_of(value@) == "development"@ || lower_of(
                    value@,
                ) == "dev"@,
                Ok(Environment::Production) => lower_of(value@) == "production"@ || lower_of(
                    value@,
                ) == "prod"@,
                Err(msg) => !(lower_of(value@) == "development"@ || lower_of(value@) == "dev"@
                    || lower_of(value@) == "production"@ || lower_of(value@) == "prod"@) && msg@
                    == lower_of(value@)
                    + " is not supported environment. Use either `local` or `production`"@,
            },
    {
        let lower = to_lowercase(value.as_str());
        if lower == String::from_str("development") || lower == String::from_str("dev") {
            Ok(Environment::Development)
        } else if lower == String::from_str("production") || lower == String::from_str("prod") {
            Ok(Environment::Production)
        } else {
            Err(lower.concat(" is not supported environment. Use either `local` or `production`"))
        }
    }
}

} // verus!
