//! Database settings.
use vstd::prelude::*;

verus! {

/// The database section of the configuration file.
pub struct DBConfig {
    pub database_url: String,
}

} // verus!
