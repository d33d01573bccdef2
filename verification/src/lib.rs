//! A sharded in-memory key-value cache: the bounded LRU cache that each node
//! keeps, the rendezvous routing by which a coordinator picks the node for a
//! key, and the request handling of both services.

use cache::Cache;
use network::{none_active, wins, CacheNetwork};
use rpc::{Code, Entry, GetResponse, Key, PingRequest, Pong, PongResponse, PutResponse, Status, Value};
use std::marker::PhantomData;
use vstd::prelude::*;

pub mod cache;
pub mod network;
pub mod rpc;
pub mod utils;

verus! {

/// Marks a server that speaks RPC. It is used as a type only.
pub enum RPCServer {
    Marker,
}

/// Marks a server that speaks HTTP. It is used as a type only.
pub enum HTTPServer {
    Marker,
}

/// The protocols a server can speak.
pub trait Server {}

impl Server for RPCServer {}

impl Server for HTTPServer {}

/// The coordinator: it answers `Get` and `Put` by choosing the node that
/// serves the key.
pub struct CacheClusterServer<T = RPCServer> where T: Server {
    network: CacheNetwork,
    pd: PhantomData<T>,
}

impl<T> CacheClusterServer<T> where T: Server {
    /// The nodes the coordinator routes to.
    pub closed spec fn network(&self) -> CacheNetwork {
        self.network
    }

    /// A coordinator for the given cluster.
    pub fn new(network: CacheNetwork) -> (server: Self)
        ensures
            server.network() == network,
    {
        Self { network, pd: PhantomData }
    }

    /// The cluster, for reading.
    pub fn nodes(&self) -> (network: &CacheNetwork)
        ensures
            *network == self.network(),
    {
        &self.network
    }

    /// Takes note of the attempts to open the nodes' channels, as
    /// [`CacheNetwork::connect_nodes`] does.
    pub fn connect_nodes(&mut self, dialled: &Vec<bool>) -> (skipped: Vec<String>)
        ensures
            final(self).network()@ == network::connected(old(self).network()@, dialled@),
            network::views_of(skipped@) == network::inactive_addresses(final(self).network()@),
    {
        self.network.connect_nodes(dialled)
    }

    /// Decides `Get`: the node to ask and the key to send, or the status
    /// to answer with.
    pub fn get(&self, key: Key) -> (r: Result<(usize, Key), Status>)
        ensures
            match r {
                Ok((index, forward)) => wins(self.network()@, key.key@, index as int) && forward == key,
                Err(status) => {
                    &&& none_active(self.network()@)
                    &&& status.code == Code::FailedPrecondition
                    &&& status.message@ == "no cache nodes are connected recently"@
                },
            },
    {
        self.network.get_value(key)
    }

    /// Decides `Put`: the node to ask and the entry to send, or the status
    /// to answer with.
    pub fn put(&self, entry: Entry) -> (r: Result<(usize, Entry), Status>)
        ensures
            match r {
                Ok((index, forward)) => {
                    &&& entry.key matches Some(key)
                    &&& wins(self.network()@, key.key@, index as int)
                    &&& forward == entry
                },
                Err(status) => match entry.key {
                    Some(key) => {
                        &&& none_active(self.network()@)
                        &&& status.code == Code::FailedPrecondition
                        &&& status.message@ == "no cache nodes are connected recently"@
                    },
                    None => status.code == Code::InvalidArgument && status.message@ == "key not given"@,
                },
            },
    {
        self.network.put_entry(entry)
    }
}

/// A cache node: it answers `Get`, `Put` and `Ping` from its cache.
pub struct CacheServer<C, T = RPCServer> where C: Cache<String, String>, T: Server {
    cache: C,
    pd: PhantomData<T>,
}

impl<C, T> CacheServer<C, T> where C: Cache<String, String>, T: Server {
    /// The cache of the node.
    pub closed spec fn cache(&self) -> C {
        self.cache
    }

    /// A node that serves from `cache`.
    pub fn new(cache: C) -> (server: Self)
        ensures
            server.cache() == cache,
    {
        Self { cache, pd: PhantomData }
    }

    /// Answers `Get`: the value stored for the key, or `NotFound`. The
    /// entries of the cache stay as they are.
    pub fn get(&mut self, request: Key) -> (r: Result<GetResponse, Status>)
        requires
            old(self).cache().wf(),
        ensures
            final(self).cache().wf(),
            final(self).cache().limit() == old(self).cache().limit(),
            final(self).cache().entries() == old(self).cache().entries(),
            match r {
                Ok(response) => {
                    &&& old(self).cache().entries().contains_key(request.key)
                    &&& response.value == Some(Value { value: old(self).cache().entries()[request.key] })
                },
                Err(status) => {
                    &&& !old(self).cache().entries().contains_key(request.key)
                    &&& status.code == Code::NotFound
                    &&& status.message@ == "key not found"@
                },
            },
    {
        let key = request.key;
        match self.cache.get(&key) {
            Some(value) => Ok(GetResponse { value: Some(Value { value: value.clone() }) }),
            None => Err(Status::not_found("key not found")),
        }
    }

    /// Answers `Put`. An entry without key or value is refused with
    /// `InvalidArgument` and changes nothing. Otherwise the pair is handed
    /// to the cache: it is stored where the cache accepts it, and the
    /// call fails with `Internal` and the cache's message, changing
    /// nothing, where the cache refuses it. An LRU cache accepts every pair.
    pub fn put(&mut self, request: Entry) -> (r: Result<PutResponse, Status>)
        requires
            old(self).cache().wf(),
        ensures
            final(self).cache().wf(),
            final(self).cache().limit() == old(self).cache().limit(),
            match (request.key, request.value) {
                (Some(key), Some(value)) => match r {
                    Ok(_) => {
                        let before = old(self).cache().entries();
                        let after = final(self).cache().entries();
                        &&& old(self).cache().accepts(key.key, value.value)
                        &&& after == old(self).cache().stored(key.key, value.value)
                        &&& after.contains_pair(key.key, value.value)
                        &&& after.remove(key.key).submap_of(before)
                        &&& before.len() <= after.remove(key.key).len() + 1
                        &&& after.len() <= final(self).cache().limit()
                        &&& (before.contains_key(key.key) || before.len() < old(self).cache().limit())
                            ==> after == before.insert(key.key, value.value)
                    },
                    Err(status) => {
                        &&& !old(self).cache().accepts(key.key, value.value)
                        &&& status.code == Code::Internal
                        &&& status.message@ == old(self).cache().refusal(key.key, value.value)
                        &&& final(self).cache().entries() == old(self).cache().entries()
                    },
                },
                _ => {
                    &&& r matches Err(status)
                    &&& status.code == Code::InvalidArgument
                    &&& status.message@ == "key or value not valid!"@
                    &&& final(self).cache().entries() == old(self).cache().entries()
                },
            },
    {
        let Entry { key, value } = request;
        match (key, value) {
            (Some(key), Some(value)) => {
                match self.cache.put(key.key, value.value) {
                    Ok(()) => Ok(PutResponse {  }),
                    Err(msg) => Err(Status::internal(msg)),
                }
            },
            _ => Err(Status::invalid_argument("key or value not valid!")),
        }
    }

    /// Answers `Ping`: the node is serving.
    pub fn ping(&self, request: PingRequest) -> (response: PongResponse)
        ensures
            response.pong == Pong::Serving,
    {
        PongResponse { pong: Pong::Serving }
    }
}

} // verus!
