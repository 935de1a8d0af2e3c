//! Control-plane lookup fabric for a software network dataplane.
//!
//! The crate keeps, per virtual network, the authoritative map of
//! interface records together with a derived longest-prefix-match index
//! over the interfaces' underlay endpoint prefixes, and answers, for an
//! underlay address, which interface owns it.

pub mod fabric;
pub mod prefix;
pub mod prefixtrie;
pub mod socket;

pub use prefix::IpAddress;
pub use prefix::Prefix;
pub use prefixtrie::PrefixTrie;
pub use prefixtrie::TrieError;
pub use fabric::LoadError;
pub use fabric::Pif;
pub use fabric::PifTable;
pub use fabric::Vni;
pub use fabric::Vpc;
pub use socket::Manager;
pub use socket::Preference;
pub use socket::SocketId;
