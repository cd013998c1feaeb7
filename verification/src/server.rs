//! The NFS server front: the validated description of a serving endpoint.
//!
//! The listener that binds the address and speaks the NFS protocol lives
//! outside this crate; it reads this description and runs.

use vstd::prelude::*;

verus! {

/// A server that provides NFS access to a content-addressed store backed
/// by a directory on disk.
#[derive(Debug)]
pub struct MonofsServer {
    /// The path to the store.
    pub store_dir: String,
    /// The host to bind to.
    pub host: String,
    /// The port to listen on.
    pub port: u32,
}

/// The rendered bind address: `host:port`.
pub open spec fn bind_addr_spec(host: Seq<char>, port: u32) -> Seq<char> {
    host + ":"@ + crate::monitor::dec_str(port as nat)
}

impl MonofsServer {
    /// Creates a new server description from the store path and the
    /// host and port to listen on.
    pub fn new(store_dir: String, host: String, port: u32) -> (r: MonofsServer)
        ensures
            r.store_dir@ == store_dir@,
            r.host@ == host@,
            r.port == port,
    {
        MonofsServer { store_dir, host, port }
    }

    /// The path to the store.
    pub fn get_store_dir(&self) -> (r: &String)
        ensures
            r@ == self.store_dir@,
    {
        &self.store_dir
    }

    /// The host to bind to.
    pub fn get_host(&self) -> (r: &String)
        ensures
            r@ == self.host@,
    {
        &self.host
    }

    /// The port to listen on.
    pub fn get_port(&self) -> (r: u32)
        ensures
            r == self.port,
    {
        self.port
    }

    /// The address the listener binds: `host:port`.
    pub fn bind_addr(&self) -> (r: String)
        ensures
            r@ == bind_addr_spec(self.host@, self.port),
    {
        let p = crate::monitor::dec_string(self.port as u64);
        self.host.clone().concat(":").concat(p.as_str())
    }
}

} // verus!
