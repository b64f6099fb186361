//! Networking: the POSIX-style socket interface and the table of socket
//! descriptors.

pub mod posix;
