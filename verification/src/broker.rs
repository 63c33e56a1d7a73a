use vstd::prelude::*;

verus! {

/// The front of a node towards clients: it serves them at an address.
#[derive(Debug, PartialEq, Eq)]
pub struct Server {
    address: String,
}

impl Server {
    /// The address the server listens on.
    pub closed spec fn bound_to(&self) -> Seq<char> {
        self.address@
    }

    /// A server that will listen on `address`.
    pub fn new(address: String) -> (server: Self)
        ensures
            server.bound_to() == address@,
    {
        Server { address }
    }

    /// The address the server listens on.
    pub fn address(&self) -> (address: &String)
        ensures
            address@ == self.bound_to(),
    {
        &self.address
    }
}

/// How clients reach one broker of the cluster.
#[derive(Debug, PartialEq, Eq)]
pub struct Broker {
    id: u64,
    host: String,
    port: String,
}

impl Broker {
    /// The id of the broker.
    pub closed spec fn number(&self) -> u64 {
        self.id
    }

    /// The host and the port of the broker.
    pub closed spec fn location(&self) -> (Seq<char>, Seq<char>) {
        (self.host@, self.port@)
    }

    /// The broker `id` at `host` and `port`.
    pub fn new(id: u64, host: String, port: String) -> (broker: Broker)
        ensures
            broker.number() == id,
            broker.location() == (host@, port@),
    {
        Broker { id, host, port }
    }

    /// The id of the broker.
    pub fn id(&self) -> (id: u64)
        ensures
            id == self.number(),
    {
        self.id
    }

    /// The host of the broker.
    pub fn host(&self) -> (host: &String)
        ensures
            host@ == self.location().0,
    {
        &self.host
    }

    /// The port of the broker.
    pub fn port(&self) -> (port: &String)
        ensures
            port@ == self.location().1,
    {
        &self.port
    }
}

} // verus!
