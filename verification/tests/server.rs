use cache::cache::lru::LRUCache;
use cache::cache::Cache;
use cache::network::{CacheNetwork, ServerNode};
use cache::rpc::{Code, Entry, GetResponse, Key, PingRequest, Pong, PutResponse, Status, Value};
use cache::utils::http::cluster::{entry_of, get, key_of, save};
use cache::utils::http::{EntryRequestBody, HttpError, Reply, ReplyBody};
use cache::{CacheClusterServer, CacheServer, RPCServer};

fn key(text: &str) -> Key {
    Key { key: String::from(text) }
}

fn entry(k: &str, v: &str) -> Entry {
    Entry { key: Some(key(k)), value: Some(Value { value: String::from(v) }) }
}

fn found(v: &str) -> GetResponse {
    GetResponse { value: Some(Value { value: String::from(v) }) }
}

fn node_server(capacity: usize) -> CacheServer<LRUCache<String, String>, RPCServer> {
    CacheServer::new(LRUCache::new(capacity))
}

#[test]
fn a_node_of_capacity_two_evicts_the_least_recently_used() {
    let mut server = node_server(2);
    assert_eq!(server.put(entry("a", "1")), Ok(PutResponse {}));
    assert_eq!(server.put(entry("b", "2")), Ok(PutResponse {}));
    assert_eq!(server.get(key("a")), Ok(found("1")));
    assert_eq!(server.put(entry("c", "3")), Ok(PutResponse {}));
    let status = server.get(key("b")).unwrap_err();
    assert_eq!(status.code, Code::NotFound);
    assert_eq!(status.message, "key not found");
    assert_eq!(server.get(key("a")), Ok(found("1")));
    assert_eq!(server.get(key("c")), Ok(found("3")));
}

#[test]
fn a_node_refuses_entries_without_key_or_value() {
    let mut server = node_server(4);
    let status = server.put(Entry { key: None, value: Some(Value { value: String::from("x") }) }).unwrap_err();
    assert_eq!(status.code, Code::InvalidArgument);
    assert_eq!(status.message, "key or value not valid!");
    let status = server.put(Entry { key: Some(key("k")), value: None }).unwrap_err();
    assert_eq!(status.code, Code::InvalidArgument);
    let status = server.put(Entry { key: None, value: None }).unwrap_err();
    assert_eq!(status.code, Code::InvalidArgument);
    assert_eq!(server.get(key("k")).unwrap_err().code, Code::NotFound);
    assert_eq!(server.ping(PingRequest {}).pong, Pong::Serving);
}

#[test]
fn statuses_carry_their_code_and_message() {
    assert_eq!(Status::new(Code::Internal, "m"), Status { code: Code::Internal, message: String::from("m") });
    assert_eq!(Status::not_found("a").code, Code::NotFound);
    assert_eq!(Status::invalid_argument("a").code, Code::InvalidArgument);
    assert_eq!(Status::failed_precondition("a").code, Code::FailedPrecondition);
    assert_eq!(Status::internal("a").code, Code::Internal);
    assert_eq!(Status::unknown("a").code, Code::Unknown);
    assert_eq!(Status::unknown("text").message, "text");
}

#[test]
fn a_coordinator_without_reachable_nodes_fails_the_precondition() {
    let network = CacheNetwork::with_nodes(vec![ServerNode::new(String::from("n1"), 1, 1)]);
    let mut server: CacheClusterServer = CacheClusterServer::new(network);
    assert_eq!(server.connect_nodes(&vec![false]), vec![String::from("n1:1")]);
    let status = server.get(key("k")).unwrap_err();
    assert_eq!(status.code, Code::FailedPrecondition);
    assert_eq!(status.message, "no cache nodes are connected recently");
    assert_eq!(server.put(entry("k", "v")).unwrap_err().code, Code::FailedPrecondition);
}

#[test]
fn a_coordinator_routes_to_the_reachable_node() {
    let network = CacheNetwork::with_nodes(vec![
        ServerNode::new(String::from("n1"), 1, 1),
        ServerNode::new(String::from("n2"), 2, 1),
    ]);
    let mut server: CacheClusterServer = CacheClusterServer::new(network);
    assert_eq!(server.connect_nodes(&vec![true, false]), vec![String::from("n2:2")]);
    assert_eq!(server.put(entry("k", "v")), Ok((0, entry("k", "v"))));
    assert_eq!(server.get(key("k")), Ok((0, key("k"))));
    assert_eq!(server.nodes().nodes().len(), 2);
    let status = server.put(Entry { key: None, value: None }).unwrap_err();
    assert_eq!(status.code, Code::InvalidArgument);
    assert_eq!(status.message, "key not given");
}

#[test]
fn a_coordinator_chooses_the_same_node_whatever_the_order() {
    let mut forward: CacheClusterServer = CacheClusterServer::new(CacheNetwork::with_nodes(vec![
        ServerNode::new(String::from("127.0.0.1"), 4001, 1),
        ServerNode::new(String::from("127.0.0.1"), 4002, 1),
    ]));
    let mut backward: CacheClusterServer = CacheClusterServer::new(CacheNetwork::with_nodes(vec![
        ServerNode::new(String::from("127.0.0.1"), 4002, 1),
        ServerNode::new(String::from("127.0.0.1"), 4001, 1),
    ]));
    assert!(forward.connect_nodes(&vec![true, true]).is_empty());
    assert!(backward.connect_nodes(&vec![true, true]).is_empty());
    let (first, _) = forward.get(key("alpha")).unwrap();
    let (second, _) = backward.get(key("alpha")).unwrap();
    assert_eq!(forward.nodes().nodes()[first].port(), backward.nodes().nodes()[second].port());
}

#[test]
fn the_gateway_answers_a_lookup() {
    assert_eq!(key_of(String::from("k")), key("k"));
    assert_eq!(
        get(Ok(found("v"))),
        Reply { status: 200, body: ReplyBody::Value { value: String::from("v") } }
    );
    assert_eq!(
        get(Ok(GetResponse { value: None })),
        Reply { status: 500, body: ReplyBody::Failed { error: HttpError::UnknownError } }
    );
    assert_eq!(
        get(Err(Status::not_found("key not found"))),
        Reply { status: 404, body: ReplyBody::Failed { error: HttpError::KeyNotFound } }
    );
}

#[test]
fn the_gateway_answers_a_store() {
    let body = EntryRequestBody { key: String::from("k"), value: String::from("v") };
    assert_eq!(entry_of(body), entry("k", "v"));
    assert_eq!(save(Ok(PutResponse {})), Reply { status: 200, body: ReplyBody::Stored { success: true } });
    assert_eq!(
        save(Err(Status::invalid_argument("key not given"))),
        Reply { status: 400, body: ReplyBody::Failed { error: HttpError::BadRequest } }
    );
}

#[test]
fn a_cache_behind_the_trait_serves_a_node() {
    fn fill<C: Cache<String, String>>(capacity: usize) -> CacheServer<C> {
        let mut server = CacheServer::new(C::new(capacity));
        server.put(Entry {
            key: Some(Key { key: String::from("k") }),
            value: Some(Value { value: String::from("v") }),
        })
        .unwrap();
        server
    }
    let mut server = fill::<LRUCache<String, String>>(1);
    assert_eq!(server.get(key("k")), Ok(found("v")));
}
