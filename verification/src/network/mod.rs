//! The cluster as the coordinator sees it: the cache nodes, which of them
//! are connected, and the rendezvous rule that picks the node for a key.

use crate::rpc::{Entry, Key, Status};
use crate::utils::hash::{xxh3_64_seeded, xxhash_64, xxhash_64_with_seed};
use vstd::prelude::*;

verus! {

/// What can go wrong in the network.
#[derive(Debug)]
pub enum Error {
    NotValidAddress,
    CouldNotConnectNodes(Vec<String>),
    NoNodesRegistered,
    NodeCouldNotBeConnected(String),
    Unknown,
    EntryNotFound(String),
    Reason(String),
}

/// The strings of `ids`, by their characters.
pub open spec fn views_of(ids: Seq<String>) -> Seq<Seq<char>> {
    ids.map_values(|id: String| id@)
}

/// How `{:?}` prints a vector of strings.
pub uninterp spec fn debug_list(ids: Seq<Seq<char>>) -> Seq<char>;

/// Formats `ids` with `{:?}`. Trusted: the text depends on the strings
/// alone, and is the one that [`debug_list`] names.
#[verifier::external_body]
fn format_debug_list(ids: &Vec<String>) -> (text: String)
    ensures
        text@ == debug_list(views_of(ids@)),
{
    format!("{:?}", ids)
}

impl Error {
    /// The message of the error, by its characters.
    pub open spec fn message(self) -> Seq<char> {
        match self {
            Error::NotValidAddress => "given address not valid"@,
            Error::CouldNotConnectNodes(ids) => "Couldn't connect with "@ + debug_list(views_of(ids@))
                + " servers"@,
            Error::NoNodesRegistered => "no cache nodes are connected currently"@,
            Error::NodeCouldNotBeConnected(addr) => "Server "@ + addr@ + " could not be connected"@,
            Error::Unknown => "failed due to unknown reason"@,
            Error::EntryNotFound(msg) => msg@,
            Error::Reason(msg) => msg@,
        }
    }

    /// The message of the error.
    pub fn to_string(&self) -> (text: String)
        ensures
            text@ == self.message(),
    {
        match self {
            Error::NotValidAddress => String::from_str("given address not valid"),
            Error::CouldNotConnectNodes(ids) => {
                let mut text = String::from_str("Couldn't connect with ");
                let list = format_debug_list(ids);
                text.append(list.as_str());
                text.append(" servers");
                text
            },
            Error::NoNodesRegistered => String::from_str("no cache nodes are connected currently"),
            Error::NodeCouldNotBeConnected(addr) => {
                let mut text = String::from_str("Server ");
                text.append(addr.as_str());
                text.append(" could not be connected");
                text
            },
            Error::Unknown => String::from_str("failed due to unknown reason"),
            Error::EntryNotFound(msg) => msg.clone(),
            Error::Reason(msg) => msg.clone(),
        }
    }
}

/// The decimal digit `d`.
pub open spec fn digit(d: nat) -> char {
    if d == 0 {
        '0'
    } else if d == 1 {
        '1'
    } else if d == 2 {
        '2'
    } else if d == 3 {
        '3'
    } else if d == 4 {
        '4'
    } else if d == 5 {
        '5'
    } else if d == 6 {
        '6'
    } else if d == 7 {
        '7'
    } else if d == 8 {
        '8'
    } else {
        '9'
    }
}

/// The decimal numeral of `n`, without leading zeros.
pub open spec fn decimal(n: nat) -> Seq<char>
    decreases n,
{
    if n < 10 {
        seq![digit(n)]
    } else {
        decimal(n / 10).push(digit(n % 10))
    }
}

/// The numeral of one digit.
fn digit_str(d: u16) -> (text: &'static str)
    requires
        d < 10,
    ensures
        text@ == seq![digit(d as nat)],
{
    proof {
        reveal_strlit("0");
        reveal_strlit("1");
        reveal_strlit("2");
        reveal_strlit("3");
        reveal_strlit("4");
        reveal_strlit("5");
        reveal_strlit("6");
        reveal_strlit("7");
        reveal_strlit("8");
        reveal_strlit("9");
    }
    let text = if d == 0 {
        "0"
    } else if d == 1 {
        "1"
    } else if d == 2 {
        "2"
    } else if d == 3 {
        "3"
    } else if d == 4 {
        "4"
    } else if d == 5 {
        "5"
    } else if d == 6 {
        "6"
    } else if d == 7 {
        "7"
    } else if d == 8 {
        "8"
    } else {
        "9"
    };
    assert(text@ =~= seq![digit(d as nat)]);
    text
}

/// The decimal numeral of `n` as a string.
pub fn decimal_string(n: u16) -> (text: String)
    ensures
        text@ == decimal(n as nat),
    decreases n,
{
    if n < 10 {
        String::from_str(digit_str(n))
    } else {
        let mut text = decimal_string(n / 10);
        text.append(digit_str(n % 10));
        assert(text@ =~= decimal(n as nat));
        text
    }
}

/// The canonical address of an endpoint: the host, a colon, and the port
/// in decimal.
pub open spec fn address_of(host: Seq<char>, port: u16) -> Seq<char> {
    host + seq![':'] + decimal(port as nat)
}

/// The name of the node at an endpoint: the hash of its canonical address
/// under seed zero.
pub open spec fn node_id(host: Seq<char>, port: u16) -> u64 {
    xxh3_64_seeded(address_of(host, port), 0)
}

/// The text of a colon.
fn colon() -> (text: &'static str)
    ensures
        text@ == seq![':'],
{
    proof {
        reveal_strlit(":");
    }
    let text = ":";
    assert(text@ =~= seq![':']);
    text
}

/// Whether `text` holds a colon.
fn has_colon(text: &str) -> (found: bool)
    ensures
        found == text@.contains(':'),
{
    let len = text.unicode_len();
    let mut at: usize = 0;
    while at < len
        invariant
            len == text@.len(),
            at <= len,
            forall|i: int| 0 <= i < at ==> text@[i] != ':',
        decreases len - at,
    {
        if text.get_char(at) == ':' {
            return true;
        }
        at += 1;
    }
    false
}

/// The abstract state of a node.
pub struct NodeView {
    pub id: u64,
    pub host: Seq<char>,
    pub port: u16,
    pub weight: usize,
    pub active: bool,
}

impl NodeView {
    /// The canonical address of the node: `host:port`.
    pub open spec fn address(self) -> Seq<char> {
        address_of(self.host, self.port)
    }

    /// Where the node's channel is opened: the canonical address behind
    /// the scheme, with a host that holds colons (an IPv6 address) in
    /// square brackets.
    pub open spec fn dial_address(self) -> Seq<char> {
        if self.host.contains(':') {
            "http://["@ + self.host + "]"@ + seq![':'] + decimal(self.port as nat)
        } else {
            "http://"@ + self.address()
        }
    }

    /// The node is named by the hash of its canonical address.
    pub open spec fn wf(self) -> bool {
        self.id == node_id(self.host, self.port)
    }

    /// The node after an attempt to connect it that ended as `dialled` says.
    pub open spec fn connect(self, dialled: bool) -> Self {
        NodeView { active: self.active || dialled, ..self }
    }
}

/// One cache node of the cluster.
pub struct ServerNode {
    id: u64,
    host: String,
    port: u16,
    weight: usize,
    active: bool,
}

impl View for ServerNode {
    type V = NodeView;

    closed spec fn view(&self) -> NodeView {
        NodeView { id: self.id, host: self.host@, port: self.port, weight: self.weight, active: self.active }
    }
}

impl ServerNode {
    fn address_from(host: String, port: u16) -> (address: String)
        ensures
            address@ == address_of(host@, port),
    {
        let mut host = host;
        let numeral = decimal_string(port);
        host.append(colon());
        host.append(numeral.as_str());
        host
    }

    /// A node at `host` and `port` that is not connected yet.
    pub fn new(host: String, port: u16, weight: usize) -> (node: Self)
        ensures
            node@.wf(),
            node@.host == host@,
            node@.port == port,
            node@.weight == weight,
            !node@.active,
    {
        let address = Self::address_from(host.clone(), port);
        ServerNode { id: xxhash_64(address.as_str()), host, port, weight, active: false }
    }

    /// The node at the first of the endpoints that an address resolved to;
    /// `NotValidAddress` where it resolved to none.
    pub fn parse(resolved: &Vec<(String, u16)>, weight: usize) -> (r: Result<Self, Error>)
        ensures
            match r {
                Ok(node) => {
                    &&& resolved@.len() > 0
                    &&& node@.wf()
                    &&& node@.host == resolved@[0].0@
                    &&& node@.port == resolved@[0].1
                    &&& node@.weight == weight
                    &&& !node@.active
                },
                Err(err) => resolved@.len() == 0 && err is NotValidAddress,
            },
    {
        if resolved.len() > 0 {
            Ok(ServerNode::new(resolved[0].0.clone(), resolved[0].1, weight))
        } else {
            Err(Error::NotValidAddress)
        }
    }

    /// The name of the node.
    pub fn id(&self) -> (id: u64)
        ensures
            id == self@.id,
    {
        self.id
    }

    /// The host of the node.
    pub fn host(&self) -> (host: String)
        ensures
            host@ == self@.host,
    {
        self.host.clone()
    }

    /// The port of the node.
    pub fn port(&self) -> (port: u16)
        ensures
            port == self@.port,
    {
        self.port
    }

    /// The canonical address of the node: `host:port`.
    pub fn address(&self) -> (address: String)
        ensures
            address@ == self@.address(),
    {
        Self::address_from(self.host(), self.port)
    }

    /// Where to open the node's channel: `http://host:port`, the host in
    /// square brackets where it holds colons.
    pub fn dial_address(&self) -> (text: String)
        ensures
            text@ == self@.dial_address(),
    {
        if has_colon(self.host.as_str()) {
            let mut text = String::from_str("http://[");
            let numeral = decimal_string(self.port);
            text.append(self.host.as_str());
            text.append("]");
            text.append(colon());
            text.append(numeral.as_str());
            text
        } else {
            let mut text = String::from_str("http://");
            let address = self.address();
            text.append(address.as_str());
            text
        }
    }

    /// The weight of the node. Routing does not read it.
    pub fn weight(&self) -> (weight: usize)
        ensures
            weight == self@.weight,
    {
        self.weight
    }

    /// Whether the node is connected.
    pub fn is_active(&self) -> (active: bool)
        ensures
            active == self@.active,
    {
        self.active
    }
    /// Takes note of an attempt to open the node's channel. A node that is
    /// connected stays so whatever `dialled` says; one that was not is
    /// connected exactly if the attempt succeeded.
    pub fn connect(&mut self, dialled: bool) -> (r: Result<(), Error>)
        ensures
            final(self)@ == old(self)@.connect(dialled),
            match r {
                Ok(_) => final(self)@.active,
                Err(err) => {
                    &&& !final(self)@.active
                    &&& err matches Error::NodeCouldNotBeConnected(addr)
                    &&& addr@ == old(self)@.address()
                },
            },
    {
        if !self.active {
            if dialled {
                self.active = true;
            } else {
                return Err(Error::NodeCouldNotBeConnected(self.address()));
            }
        }
        Ok(())
    }

    /// The message with which a node that is not connected answers.
    pub open spec fn not_connected(self) -> Seq<char> {
        "node "@ + self@.address() + " couldn't not be connected"@
    }

    /// The status with which a node without a channel answers a call.
    pub fn not_connected_status(&self) -> (status: Status)
        ensures
            status.code == crate::rpc::Code::FailedPrecondition,
            status.message@ == self.not_connected(),
    {
        let mut message = String::from_str("node ");
        let address = self.address();
        message.append(address.as_str());
        message.append(" couldn't not be connected");
        Status { code: crate::rpc::Code::FailedPrecondition, message }
    }

    /// Decides a lookup on this node: the key to send over the node's
    /// channel, or the status to answer with where the node is not connected.
    pub fn get(&self, key: Key) -> (r: Result<Key, Status>)
        ensures
            match r {
                Ok(forward) => self@.active && forward == key,
                Err(status) => {
                    &&& !self@.active
                    &&& status.code == crate::rpc::Code::FailedPrecondition
                    &&& status.message@ == self.not_connected()
                },
            },
    {
        if self.active {
            Ok(key)
        } else {
            Err(self.not_connected_status())
        }
    }

    /// Decides a store on this node: the entry to send over the node's
    /// channel, or the status to answer with where the node is not connected.
    pub fn put(&self, entry: Entry) -> (r: Result<Entry, Status>)
        ensures
            match r {
                Ok(forward) => self@.active && forward == entry,
                Err(status) => {
                    &&& !self@.active
                    &&& status.code == crate::rpc::Code::FailedPrecondition
                    &&& status.message@ == self.not_connected()
                },
            },
    {
        if self.active {
            Ok(entry)
        } else {
            Err(self.not_connected_status())
        }
    }
}

/// The weight of `node` for `key`: the hash of the key seeded with the
/// node's name.
pub open spec fn score(node: NodeView, key: Seq<char>) -> u64 {
    xxh3_64_seeded(key, node.id)
}

/// Among the first `n` nodes, node `i` is connected and has the highest
/// weight for `key`, and no connected node before it has the same.
pub open spec fn wins_among(nodes: Seq<NodeView>, key: Seq<char>, i: int, n: int) -> bool {
    &&& 0 <= i < n <= nodes.len()
    &&& nodes[i].active
    &&& forall|j: int| 0 <= j < n && #[trigger] nodes[j].active ==> score(nodes[j], key) <= score(nodes[i], key)
    &&& forall|j: int| 0 <= j < i && #[trigger] nodes[j].active ==> score(nodes[j], key) < score(nodes[i], key)
}

/// Node `i` is the rendezvous choice for `key`.
pub open spec fn wins(nodes: Seq<NodeView>, key: Seq<char>, i: int) -> bool {
    wins_among(nodes, key, i, nodes.len() as int)
}

/// No node is connected.
pub open spec fn none_active(nodes: Seq<NodeView>) -> bool {
    forall|j: int| 0 <= j < nodes.len() ==> !(#[trigger] nodes[j]).active
}

/// The addresses of the nodes that are not connected, in the order of the nodes.
pub open spec fn inactive_addresses(nodes: Seq<NodeView>) -> Seq<Seq<char>>
    decreases nodes.len(),
{
    if nodes.len() == 0 {
        Seq::empty()
    } else if nodes.last().active {
        inactive_addresses(nodes.drop_last())
    } else {
        inactive_addresses(nodes.drop_last()).push(nodes.last().address())
    }
}

/// The nodes after each was dialled as `dialled` says; a node without an
/// outcome counts as not reached.
pub open spec fn connected(nodes: Seq<NodeView>, dialled: Seq<bool>) -> Seq<NodeView> {
    Seq::new(nodes.len(), |i: int| nodes[i].connect(i < dialled.len() && dialled[i]))
}

/// For each node, where to dial it; nothing for a node that is connected.
pub open spec fn dial_targets(nodes: Seq<NodeView>) -> Seq<Option<Seq<char>>> {
    Seq::new(
        nodes.len(),
        |i: int|
            if nodes[i].active {
                None
            } else {
                Some(nodes[i].dial_address())
            },
    )
}

/// The targets, by their characters.
pub open spec fn target_views(targets: Seq<Option<String>>) -> Seq<Option<Seq<char>>> {
    targets.map_values(
        |target: Option<String>|
            match target {
                Some(text) => Some(text@),
                None => None,
            },
    )
}

/// At most one node is the rendezvous choice: the choice depends on the
/// nodes and the key alone.
pub proof fn lemma_wins_unique(nodes: Seq<NodeView>, key: Seq<char>, i: int, j: int)
    requires
        wins(nodes, key, i),
        wins(nodes, key, j),
    ensures
        i == j,
{
}

/// Taking a node out of the cluster leaves the choice for every key whose
/// chosen node stays.
pub proof fn lemma_removal_keeps_choice(nodes: Seq<NodeView>, key: Seq<char>, chosen: int, removed: int)
    requires
        wins(nodes, key, chosen),
        0 <= removed < nodes.len(),
        removed != chosen,
    ensures
        wins(
            nodes.remove(removed),
            key,
            if removed < chosen {
                chosen - 1
            } else {
                chosen
            },
        ),
        nodes.remove(removed)[if removed < chosen {
            chosen - 1
        } else {
            chosen
        }] == nodes[chosen],
{
    let rest = nodes.remove(removed);
    assert forall|j: int| 0 <= j < rest.len() implies #[trigger] rest[j] == nodes[if j < removed {
        j
    } else {
        j + 1
    }] by {}
}

/// The choice does not depend on the order of the nodes, as long as no two
/// connected nodes weigh the same for the key: where two clusters hold the
/// same nodes, the chosen nodes weigh the same, and are the same node if
/// weights are not shared.
pub proof fn lemma_choice_ignores_order(
    first: Seq<NodeView>,
    second: Seq<NodeView>,
    key: Seq<char>,
    i: int,
    j: int,
)
    requires
        wins(first, key, i),
        wins(second, key, j),
        forall|node: NodeView| first.contains(node) <==> second.contains(node),
    ensures
        score(first[i], key) == score(second[j], key),
        (forall|a: int, b: int|
            0 <= a < first.len() && 0 <= b < first.len() && first[a].active && first[b].active && score(
                first[a],
                key,
            ) == score(first[b], key) ==> first[a] == first[b]) ==> first[i] == second[j],
{
    assert(first.contains(first[i]));
    assert(second.contains(second[j]));
    let a = choose|a: int| 0 <= a < second.len() && second[a] == first[i];
    let b = choose|b: int| 0 <= b < first.len() && first[b] == second[j];
    assert(second[a].active);
    assert(first[b].active);
}

/// The nodes of the cluster, in the order in which they were registered.
pub struct CacheNetwork {
    nodes: Vec<ServerNode>,
}

impl View for CacheNetwork {
    type V = Seq<NodeView>;

    closed spec fn view(&self) -> Seq<NodeView> {
        self.nodes@.map_values(|node: ServerNode| node@)
    }
}

/// The status that stands for a routing error at the cluster's boundary.
pub fn routing_status(err: &Error) -> (status: Status)
    ensures
        err is NoNodesRegistered ==> status.code == crate::rpc::Code::FailedPrecondition && status.message@
            == "no cache nodes are connected recently"@,
        !(err is NoNodesRegistered) ==> status.code == crate::rpc::Code::Unknown && status.message@
            == "failed due to unknown reason"@,
{
    match err {
        Error::NoNodesRegistered => Status::failed_precondition("no cache nodes are connected recently"),
        _ => Status::unknown("failed due to unknown reason"),
    }
}

impl CacheNetwork {
    /// A cluster without nodes.
    pub fn new() -> (network: Self)
        ensures
            network@ == Seq::<NodeView>::empty(),
    {
        let network = CacheNetwork { nodes: Vec::new() };
        assert(network@ =~= Seq::<NodeView>::empty());
        network
    }

    /// A cluster of the given nodes.
    pub fn with_nodes(nodes: Vec<ServerNode>) -> (network: Self)
        ensures
            network@ == nodes@.map_values(|node: ServerNode| node@),
    {
        CacheNetwork { nodes }
    }

    /// The nodes of the cluster.
    pub fn nodes(&self) -> (nodes: &Vec<ServerNode>)
        ensures
            nodes@.map_values(|node: ServerNode| node@) == self@,
    {
        &self.nodes
    }

    /// Registers `node` behind the nodes that are there.
    pub fn add_node(&mut self, node: ServerNode)
        ensures
            final(self)@ == old(self)@.push(node@),
    {
        self.nodes.push(node);
        assert(self@ =~= old(self)@.push(node@));
    }

    /// Registers the node at the first endpoint that an address resolved
    /// to; fails with `NotValidAddress`, changing nothing, where it
    /// resolved to none.
    pub fn add_server(&mut self, resolved: &Vec<(String, u16)>, weight: usize) -> (r: Result<(), Error>)
        ensures
            match r {
                Ok(_) => {
                    &&& resolved@.len() > 0
                    &&& final(self)@.len() == old(self)@.len() + 1
                    &&& final(self)@.drop_last() == old(self)@
                    &&& final(self)@.last().wf()
                    &&& final(self)@.last().host == resolved@[0].0@
                    &&& final(self)@.last().port == resolved@[0].1
                    &&& final(self)@.last().weight == weight
                    &&& !final(self)@.last().active
                },
                Err(err) => resolved@.len() == 0 && err is NotValidAddress && final(self)@ == old(self)@,
            },
    {
        match ServerNode::parse(resolved, weight) {
            Ok(node) => {
                self.add_node(node);
                assert(self@.drop_last() =~= old(self)@);
                Ok(())
            },
            Err(err) => Err(err),
        }
    }

    /// A cluster of one node for each server, in their order; fails with
    /// `NotValidAddress` where the address of one resolved to no endpoint.
    pub fn with_servers(servers: &Vec<(Vec<(String, u16)>, usize)>) -> (r: Result<Self, Error>)
        ensures
            match r {
                Ok(network) => {
                    &&& network@.len() == servers@.len()
                    &&& forall|i: int|
                        #![trigger network@[i]]
                        #![trigger servers@[i]]
                        0 <= i < servers@.len() ==> {
                            &&& servers@[i].0@.len() > 0
                            &&& network@[i].wf()
                            &&& network@[i].host == servers@[i].0@[0].0@
                            &&& network@[i].port == servers@[i].0@[0].1
                            &&& network@[i].weight == servers@[i].1
                            &&& !network@[i].active
                        }
                },
                Err(err) => err is NotValidAddress && exists|i: int|
                    0 <= i < servers@.len() && (#[trigger] servers@[i]).0@.len() == 0,
            },
    {
        let mut network = Self::new();
        let mut at: usize = 0;
        while at < servers.len()
            invariant
                at <= servers@.len(),
                network@.len() == at,
                forall|i: int|
                    #![trigger network@[i]]
                    #![trigger servers@[i]]
                    0 <= i < at ==> {
                        &&& servers@[i].0@.len() > 0
                        &&& network@[i].wf()
                        &&& network@[i].host == servers@[i].0@[0].0@
                        &&& network@[i].port == servers@[i].0@[0].1
                        &&& network@[i].weight == servers@[i].1
                        &&& !network@[i].active
                    },
            decreases servers@.len() - at,
        {
            let ghost before = network@;
            match network.add_server(&servers[at].0, servers[at].1) {
                Ok(_) => {
                    assert forall|i: int| 0 <= i < at implies #[trigger] network@[i] == before[i] by {
                        assert(network@.drop_last()[i] == before[i]);
                    }
                    assert(network@[at as int] == network@.last());
                    assert(servers@[at as int].0@.len() > 0);
                },
                Err(err) => {
                    return Err(err);
                },
            }
            at += 1;
        }
        Ok(network)
    }

    /// The channels to open before `connect_nodes`: for each node in
    /// their order, where to dial it, and nothing for a node that is
    /// connected already.
    pub fn dial_targets(&self) -> (targets: Vec<Option<String>>)
        ensures
            target_views(targets@) == dial_targets(self@),
    {
        let mut targets: Vec<Option<String>> = Vec::new();
        let mut at: usize = 0;
        while at < self.nodes.len()
            invariant
                at <= self.nodes@.len(),
                self@.len() == self.nodes@.len(),
                targets@.len() == at,
                forall|i: int| 0 <= i < at ==> #[trigger] target_views(targets@)[i] == dial_targets(self@)[i],
            decreases self.nodes@.len() - at,
        {
            let ghost before = targets@;
            let node = &self.nodes[at];
            assert(self@[at as int] == node@);
            let target = if node.is_active() {
                None
            } else {
                Some(node.dial_address())
            };
            targets.push(target);
            assert forall|i: int| 0 <= i < at + 1 implies #[trigger] target_views(targets@)[i]
                == dial_targets(self@)[i] by {
                if i < at {
                    assert(target_views(before)[i] == dial_targets(self@)[i]);
                }
            }
            at += 1;
        }
        assert(target_views(targets@) =~= dial_targets(self@));
        targets
    }

    /// Takes note of the attempts to open the nodes' channels, one outcome
    /// for each node in their order; a node without an outcome counts as
    /// not reached. Returns the addresses of the nodes that are not
    /// connected afterwards. A node that could not be reached fails
    /// nothing: routing passes it over.
    pub fn connect_nodes(&mut self, dialled: &Vec<bool>) -> (skipped: Vec<String>)
        ensures
            final(self)@ == connected(old(self)@, dialled@),
            views_of(skipped@) == inactive_addresses(final(self)@),
    {
        let mut error_ids: Vec<String> = Vec::new();
        let mut at: usize = 0;
        assert(views_of(error_ids@) =~= inactive_addresses(self@.subrange(0, 0)));
        while at < self.nodes.len()
            invariant
                at <= self@.len(),
                self@.len() == old(self)@.len(),
                self@.len() == self.nodes@.len(),
                forall|i: int| 0 <= i < at ==> #[trigger] self@[i] == connected(old(self)@, dialled@)[i],
                forall|i: int| at <= i < self@.len() ==> #[trigger] self@[i] == old(self)@[i],
                views_of(error_ids@) == inactive_addresses(self@.subrange(0, at as int)),
            decreases self@.len() - at,
        {
            let outcome = at < dialled.len() && dialled[at];
            let ghost before = self@;
            let ghost listed = error_ids@;
            let ghost node = self.nodes@[at as int]@;
            assert(before[at as int] == node);
            let connection = self.nodes[at].connect(outcome);
            proof {
                assert(self.nodes@[at as int]@ == node.connect(outcome));
                assert(self@[at as int] == node.connect(outcome));
                assert forall|i: int| 0 <= i < self@.len() && i != at implies #[trigger] self@[i]
                    == before[i] by {}
                assert(self@.subrange(0, at + 1).drop_last() =~= before.subrange(0, at as int));
                assert(self@.subrange(0, at + 1).last() == self@[at as int]);
            }
            match connection {
                Err(Error::NodeCouldNotBeConnected(address)) => {
                    error_ids.push(address);
                    assert(views_of(error_ids@) =~= views_of(listed).push(address@));
                },
                _ => {},
            }
            at += 1;
        }
        assert(self@.subrange(0, at as int) =~= self@);
        assert(self@ =~= connected(old(self)@, dialled@));
        error_ids
    }

    /// The node for `key` by rendezvous hashing: among the connected nodes
    /// the one for which the key, hashed with the node's name as seed,
    /// weighs most, and of several such the first. Fails with
    /// `NoNodesRegistered` exactly where no node is connected.
    pub fn find_node_with_key(&self, key: &str) -> (r: Result<usize, Error>)
        ensures
            match r {
                Ok(index) => wins(self@, key@, index as int),
                Err(err) => err is NoNodesRegistered && none_active(self@),
            },
    {
        let mut chosen: Option<usize> = None;
        let mut hash: u64 = 0;
        let mut pos: usize = 0;
        while pos < self.nodes.len()
            invariant
                pos <= self@.len(),
                self@.len() == self.nodes@.len(),
                forall|i: int| 0 <= i < self@.len() ==> #[trigger] self@[i] == self.nodes@[i]@,
                match chosen {
                    Some(index) => wins_among(self@, key@, index as int, pos as int) && hash == score(
                        self@[index as int],
                        key@,
                    ),
                    None => forall|j: int| 0 <= j < pos ==> !(#[trigger] self@[j]).active,
                },
            decreases self@.len() - pos,
        {
            let node = &self.nodes[pos];
            if node.is_active() {
                let rendez_hash = xxhash_64_with_seed(key, node.id());
                match chosen {
                    Some(_) => {
                        if rendez_hash > hash {
                            hash = rendez_hash;
                            chosen = Some(pos);
                        }
                    },
                    None => {
                        hash = rendez_hash;
                        chosen = Some(pos);
                    },
                }
            }
            pos += 1;
        }
        match chosen {
            Some(index) => Ok(index),
            None => Err(Error::NoNodesRegistered),
        }
    }

    /// Decides a lookup: the node to send the key to and the key, or the
    /// status to answer with. It fails exactly where no node is connected,
    /// with `FailedPrecondition`.
    pub fn get_value(&self, key: Key) -> (r: Result<(usize, Key), Status>)
        ensures
            match r {
                Ok((index, forward)) => wins(self@, key.key@, index as int) && forward == key,
                Err(status) => {
                    &&& none_active(self@)
                    &&& status.code == crate::rpc::Code::FailedPrecondition
                    &&& status.message@ == "no cache nodes are connected recently"@
                },
            },
    {
        match self.find_node_with_key(key.key.as_str()) {
            Ok(node_index) => {
                assert(self@[node_index as int] == self.nodes@[node_index as int]@);
                match self.nodes[node_index].get(key) {
                    Ok(forward) => Ok((node_index, forward)),
                    Err(status) => Err(status),
                }
            },
            Err(err) => Err(routing_status(&err)),
        }
    }

    /// Decides a store: the node to send the entry to and the entry, or the
    /// status to answer with. An entry without a key fails with
    /// `InvalidArgument`; otherwise it fails exactly where no node is
    /// connected, with `FailedPrecondition`.
    pub fn put_entry(&self, entry: Entry) -> (r: Result<(usize, Entry), Status>)
        ensures
            match r {
                Ok((index, forward)) => {
                    &&& entry.key matches Some(key)
                    &&& wins(self@, key.key@, index as int)
                    &&& forward == entry
                },
                Err(status) => match entry.key {
                    Some(key) => {
                        &&& none_active(self@)
                        &&& status.code == crate::rpc::Code::FailedPrecondition
                        &&& status.message@ == "no cache nodes are connected recently"@
                    },
                    None => status.code == crate::rpc::Code::InvalidArgument && status.message@
                        == "key not given"@,
                },
            },
    {
        let routed = match &entry.key {
            Some(key) => self.find_node_with_key(key.key.as_str()),
            None => {
                return Err(Status::invalid_argument("key not given"));
            },
        };
        match routed {
            Ok(node_index) => {
                assert(self@[node_index as int] == self.nodes@[node_index as int]@);
                match self.nodes[node_index].put(entry) {
                    Ok(forward) => Ok((node_index, forward)),
                    Err(status) => Err(status),
                }
            },
            Err(err) => Err(routing_status(&err)),
        }
    }
}

} // verus!
