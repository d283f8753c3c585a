//! Authorization and per-session state of a message broker's router:
//! access rules over '/'-segmented names, the state kept for each
//! connection, the pool of numeric topic aliases, and publish filters.

pub mod acl;
pub mod aliases;
pub mod connection;
pub mod filter;
pub mod protocol;
pub mod slots;
pub mod text;

pub use acl::{Acl, AclError, AclRule};
pub use aliases::BrokerAliases;
pub use connection::Connection;
pub use filter::{PublishFilter, PublishFilterContext, PublishFilterRef};

