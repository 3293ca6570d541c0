//! The sibling gossip core of teach-tech: a length-prefixed frame protocol
//! (`frame`), the table of live peer connections with its dial and teardown
//! rules (`table`), and the ordered registry of inbound-message handlers
//! (`handlers`). Beside it stand the plain values that the service around it
//! exchanges: user identifiers, permission codes, configuration and commands.
pub mod admin_permissions;
pub mod auth;
pub mod cli;
pub mod db;
pub mod frame;
pub mod handlers;
pub mod instructor_permissions;
pub mod table;
