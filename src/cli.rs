//! The service's command line.
use crate::admin_permissions::Permission;
use vstd::prelude::*;

verus! {

/// What the service is asked to do.
pub enum Command {
    /// Make `user_id` an administrator named `username` with exactly `permissions`,
    /// creating the user with a fresh password if it has no credentials yet.
    CreateAdmin { username: String, user_id: i32, permissions: Vec<Permission> },
    /// Serve the API and join the sibling gossip.
    Run,
    /// Drop and recreate every registered table.
    ResetDB,
}

} // verus!
