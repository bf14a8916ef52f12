//! The registry center's bookkeeping: which nodes are registered, when each
//! last reported, which one is the master; registration, load reports,
//! heartbeat expiry with master election, and load balancing for clients.
use vstd::prelude::*;
use crate::message::{opt_text, RegisterResp};
use crate::node::{
    default_state_info, f32_bits_less, f32_bits_lt, f32_one_bits, node_key, NodeInfo, NodeType,
    StateInfo,
};
use crate::outside::timestamp_millis_now;
use crate::table::{key_set, KeyedTable};

verus! {

/// How long (in milliseconds) a node may stay silent before it counts as
/// offline.
pub const NODE_HEARTBEAT_TIMEOUT_MILLIS: i64 = 5000;

/// What the registry center knows of a node's liveness and load.
#[derive(Clone, Copy, Debug)]
pub struct NodeState {
    /// When the node registered or last reported, in milliseconds.
    pub last_heartbeat_time: i64,
    pub state_info: StateInfo,
}

/// The record of a node that registers (or reports nothing yet) at `now`.
pub open spec fn fresh_node_state(now: i64) -> NodeState {
    NodeState { last_heartbeat_time: now, state_info: default_state_info() }
}

impl NodeState {
    /// A record made now, with the default load.
    pub fn default() -> (s: Self)
        ensures
            s.state_info == default_state_info(),
    {
        NodeState { last_heartbeat_time: timestamp_millis_now(), state_info: StateInfo::default() }
    }

    /// A record made at `now`, with the default load.
    pub fn fresh_at(now: i64) -> (s: Self)
        ensures
            s == fresh_node_state(now),
    {
        NodeState { last_heartbeat_time: now, state_info: StateInfo::default() }
    }
}

/// The registry center's state as plain values.
pub struct RegistryView {
    /// Registered nodes by client id.
    pub node_list: Map<Seq<char>, NodeInfo>,
    /// Liveness and load by client id.
    pub node_state: Map<Seq<char>, NodeState>,
    pub master_node: Option<NodeInfo>,
    /// The transport identity of each registered node's connection.
    pub peers: Map<Seq<char>, Seq<u8>>,
}

/// The registry center's state.
pub struct AppContext {
    pub node_list: KeyedTable<NodeInfo>,
    pub node_state: KeyedTable<NodeState>,
    pub master_node: Option<NodeInfo>,
    /// Client id to the identity (bytes) of the connection it registered on.
    pub node_id_peer_id_map: KeyedTable<Vec<u8>>,
}

impl View for AppContext {
    type V = RegistryView;

    open spec fn view(&self) -> RegistryView {
        RegistryView {
            node_list: self.node_list@,
            node_state: self.node_state@,
            master_node: self.master_node,
            peers: self.node_id_peer_id_map@.map_values(|v: Vec<u8>| v@),
        }
    }
}

/// A request that a node sends to the registry center, its content already
/// read from its text (`None` where the message had no content).
pub enum RegistryRequest {
    Register(Option<NodeInfo>),
    Report(Option<StateInfo>),
    /// Any other operation: the registry center ignores it.
    Other,
}

/// A registration answer as plain values: success, and the reason of a failure.
pub open spec fn resp_view(r: Option<RegisterResp>) -> Option<(bool, Option<Seq<char>>)> {
    match r {
        Some(r) => Some((r.is_success, opt_text(r.reason))),
        None => None,
    }
}

/// What a registration does: a client id may register once; a master only
/// while there is none, a slave only while there is one. A node that
/// registers is recorded with its connection and a fresh heartbeat, and a
/// master becomes the master node. A registration without content changes
/// nothing and gets no answer.
pub open spec fn register_spec(
    s: RegistryView,
    id: Seq<char>,
    info: Option<NodeInfo>,
    peer: Seq<u8>,
    now: i64,
) -> (RegistryView, Option<(bool, Option<Seq<char>>)>) {
    if s.node_list.dom().contains(id) {
        (s, Some((false, Some("already register"@))))
    } else {
        match info {
            None => (s, None),
            Some(n) => if n.node_type == NodeType::Master && s.master_node is Some {
                (s, Some((false, Some("only one master node can exist"@))))
            } else if n.node_type == NodeType::Slave && s.master_node is None {
                (s, Some((false, Some("master node not exist,can't register slave"@))))
            } else {
                (
                    RegistryView {
                        node_list: s.node_list.insert(id, n),
                        node_state: s.node_state.insert(id, fresh_node_state(now)),
                        master_node: if n.node_type == NodeType::Master {
                            Some(n)
                        } else {
                            s.master_node
                        },
                        peers: s.peers.insert(id, peer),
                    },
                    Some((true, None)),
                )
            },
        }
    }
}

/// What a load report does: a known node's load is replaced and its
/// heartbeat set to `now`; a report from an unknown node, or without
/// content, changes nothing.
pub open spec fn report_spec(s: RegistryView, id: Seq<char>, info: Option<StateInfo>, now: i64) -> RegistryView {
    match info {
        Some(si) => if s.node_state.dom().contains(id) {
            RegistryView {
                node_state: s.node_state.insert(id, NodeState { last_heartbeat_time: now, state_info: si }),
                ..s
            }
        } else {
            s
        },
        None => s,
    }
}

/// What the registry center does with a request: registrations and
/// reports as above; other operations change nothing and get no answer.
pub open spec fn handle_spec(
    s: RegistryView,
    id: Seq<char>,
    request: RegistryRequest,
    peer: Seq<u8>,
    now: i64,
) -> (RegistryView, Option<(bool, Option<Seq<char>>)>) {
    match request {
        RegistryRequest::Register(info) => register_spec(s, id, info, peer, now),
        RegistryRequest::Report(info) => (report_spec(s, id, info, now), None),
        RegistryRequest::Other => (s, None),
    }
}

/// A node whose last heartbeat is more than the timeout before `now`.
pub open spec fn is_expired(st: NodeState, now: i64) -> bool {
    now - st.last_heartbeat_time > NODE_HEARTBEAT_TIMEOUT_MILLIS
}

/// The client ids whose heartbeat has expired at `now`.
pub open spec fn expired_keys(s: RegistryView, now: i64) -> Set<Seq<char>> {
    Set::new(|k: Seq<char>| s.node_state.dom().contains(k) && is_expired(s.node_state[k], now))
}

/// The master node's heartbeat has expired at `now`.
pub open spec fn master_lost(s: RegistryView, now: i64) -> bool {
    s.master_node matches Some(m) && expired_keys(s, now).contains(node_key(m))
}

/// The state once the nodes whose heartbeat expired are dropped (their
/// connections stay known); a master that expired is no longer the master.
pub open spec fn after_expiry(s: RegistryView, now: i64) -> RegistryView {
    let gone = expired_keys(s, now);
    RegistryView {
        node_list: s.node_list.remove_keys(gone),
        node_state: s.node_state.remove_keys(gone),
        master_node: if master_lost(s, now) { None } else { s.master_node },
        peers: s.peers,
    }
}

/// `k` is a node whose load factor no other node's is below.
pub open spec fn is_min_load_key(states: Map<Seq<char>, NodeState>, k: Seq<char>) -> bool {
    &&& states.dom().contains(k)
    &&& forall|k2: Seq<char>| #[trigger] states.dom().contains(k2)
        ==> !f32_bits_lt(states[k2].state_info.load_factor_bits, states[k].state_info.load_factor_bits)
}

/// The node at key `k`, if any.
pub open spec fn node_at(nodes: Map<Seq<char>, NodeInfo>, k: Seq<char>) -> Option<NodeInfo> {
    if nodes.dom().contains(k) {
        Some(nodes[k])
    } else {
        None
    }
}

/// `r` is what picking the least loaded node may give: nothing when no node
/// is registered; else the registered node under the key of a least loaded
/// state (which the order of the table decides among equals), or under the
/// empty key when there is no state at all.
pub open spec fn min_load_choice(
    states: Map<Seq<char>, NodeState>,
    nodes: Map<Seq<char>, NodeInfo>,
    r: Option<NodeInfo>,
) -> bool {
    if nodes.dom() == Set::<Seq<char>>::empty() {
        r is None
    } else if states.dom() == Set::<Seq<char>>::empty() {
        r == node_at(nodes, Seq::empty())
    } else {
        exists|k: Seq<char>| is_min_load_key(states, k) && r == node_at(nodes, k)
    }
}

/// A command that the registry center sends to a node's connection.
pub enum ClusterCommand {
    /// Tells the node `client_id` to become the master.
    ConvertToMaster { peer: Vec<u8>, client_id: String },
    /// Tells the node `target` that `master` (whose key is `client_id`) is the
    /// new master.
    ChangeMaster { peer: Vec<u8>, target: String, client_id: String, master: NodeInfo },
}

/// A command as plain values.
pub enum CommandView {
    ConvertToMaster { peer: Seq<u8>, client_id: Seq<char> },
    ChangeMaster { peer: Seq<u8>, target: Seq<char>, client_id: Seq<char>, master: NodeInfo },
}

impl View for ClusterCommand {
    type V = CommandView;

    open spec fn view(&self) -> CommandView {
        match self {
            ClusterCommand::ConvertToMaster { peer, client_id } => CommandView::ConvertToMaster {
                peer: peer@,
                client_id: client_id@,
            },
            ClusterCommand::ChangeMaster { peer, target, client_id, master } => CommandView::ChangeMaster {
                peer: peer@,
                target: target@,
                client_id: client_id@,
                master: *master,
            },
        }
    }
}

/// The views of a list of commands.
pub open spec fn commands_view(cmds: Seq<ClusterCommand>) -> Seq<CommandView> {
    cmds.map_values(|c: ClusterCommand| c@)
}

/// The commands that make `m` the master: first `m` is told to convert,
/// then every other registered node, once each, is told of the change.
pub open spec fn promotion_commands(s: RegistryView, m: NodeInfo, cmds: Seq<CommandView>) -> bool {
    let mk = node_key(m);
    &&& cmds.len() >= 1
    &&& cmds[0] == (CommandView::ConvertToMaster { peer: s.peers[mk], client_id: mk })
    &&& forall|i: int| 1 <= i < cmds.len() ==> (#[trigger] cmds[i] matches CommandView::ChangeMaster { peer, target, client_id, master }
        && s.node_list.dom().contains(target) && target != mk && peer == s.peers[target]
        && client_id == mk && master == m)
    &&& forall|i: int, j: int| 1 <= i < j < cmds.len() ==> (#[trigger] cmds[i])->target != (#[trigger] cmds[j])->target
    &&& forall|t: Seq<char>| s.node_list.dom().contains(t) && t != mk ==> exists|i: int| 1 <= i < cmds.len() && (#[trigger] cmds[i])->target == t
}

/// The connections an election that promotes `m` sends to are known: that
/// of `m`'s own key, and those of every other registered node.
pub open spec fn election_peers_known(s: RegistryView, m: NodeInfo) -> bool {
    &&& s.peers.dom().contains(node_key(m))
    &&& forall|k: Seq<char>| #[trigger] s.node_list.dom().contains(k) && k != node_key(m) ==> s.peers.dom().contains(k)
}

/// `k` is a key that an election promoting `m` needs a connection for and
/// has none.
pub open spec fn missing_election_peer(s: RegistryView, m: NodeInfo, k: Seq<char>) -> bool {
    &&& !s.peers.dom().contains(k)
    &&& (k == node_key(m) || s.node_list.dom().contains(k))
}

/// An election's result as plain values: its commands, or the key that has
/// no known connection.
pub open spec fn election_view(r: Result<Vec<ClusterCommand>, String>) -> Result<Seq<CommandView>, Seq<char>> {
    match r {
        Ok(cmds) => Ok(commands_view(cmds@)),
        Err(k) => Err(k@),
    }
}

/// What an election comes to: the least loaded node (as picking it may give)
/// is promoted, provided the connections to tell are known; it fails, naming
/// a key without a connection, where they are not; nothing is sent when no
/// node is picked.
pub open spec fn election_outcome(s: RegistryView, r: Result<Seq<CommandView>, Seq<char>>) -> bool {
    exists|m: Option<NodeInfo>| #![trigger min_load_choice(s.node_state, s.node_list, m)] min_load_choice(s.node_state, s.node_list, m) && match m {
        Some(m) => if election_peers_known(s, m) {
            r matches Ok(cmds) && promotion_commands(s, m, cmds)
        } else {
            r matches Err(k) && missing_election_peer(s, m, k)
        },
        None => r == Ok::<Seq<CommandView>, Seq<char>>(Seq::<CommandView>::empty()),
    }
}

/// Every registered node's key, and every registered node's own key, has a
/// known connection.
pub open spec fn peers_cover(s: RegistryView) -> bool {
    forall|k: Seq<char>| #[trigger] s.node_list.dom().contains(k) ==> s.peers.dom().contains(k)
        && s.peers.dom().contains(node_key(s.node_list[k]))
}

/// Every registered node is registered under its own key.
pub open spec fn well_keyed(nodes: Map<Seq<char>, NodeInfo>) -> bool {
    forall|k: Seq<char>| #[trigger] nodes.dom().contains(k) ==> node_key(nodes[k]) == k
}

/// The set holds exactly one key.
pub open spec fn single_key(d: Set<Seq<char>>) -> bool {
    exists|k: Seq<char>| d == set![k]
}

/// Why load balancing cannot answer (where it would panic).
#[derive(Clone, Copy, Debug, PartialEq, Eq, Structural)]
pub enum LoadBalanceError {
    /// Two nodes or more are registered and none is the master.
    NoMaster,
    /// The least loaded node's own key has no load record once the master's
    /// is set aside.
    NoLoadRecord,
}

/// What load balancing answers a client: no node when none is registered;
/// the only node when there is one; otherwise a least loaded node other than
/// the master, provided its load factor is below 1.
pub open spec fn load_balance_spec(s: RegistryView, r: Result<Option<NodeInfo>, LoadBalanceError>) -> bool {
    if s.node_list.dom() == Set::<Seq<char>>::empty() {
        r == Ok::<Option<NodeInfo>, LoadBalanceError>(None)
    } else if single_key(s.node_list.dom()) {
        r == Ok::<Option<NodeInfo>, LoadBalanceError>(Some(s.node_list[s.node_list.dom().choose()]))
    } else if s.master_node is None {
        r == Err::<Option<NodeInfo>, LoadBalanceError>(LoadBalanceError::NoMaster)
    } else {
        let cands = s.node_state.remove(node_key(s.master_node->0));
        exists|c: Option<NodeInfo>| #![trigger min_load_choice(cands, s.node_list, c)] min_load_choice(cands, s.node_list, c) && r == match c {
            Some(n) => if !cands.dom().contains(node_key(n)) {
                Err(LoadBalanceError::NoLoadRecord)
            } else if f32_bits_lt(cands[node_key(n)].state_info.load_factor_bits, f32_one_bits()) {
                Ok(Some(n))
            } else {
                Ok(None)
            },
            None => Ok(None),
        }
    }
}

/// An election that picks `m` and lacks the connection of `k` fails naming `k`.
proof fn lemma_election_fails(s: RegistryView, m: NodeInfo, k: Seq<char>)
    requires
        min_load_choice(s.node_state, s.node_list, Some(m)),
        missing_election_peer(s, m, k),
    ensures
        election_outcome(s, Err(k)),
{
    assert(!election_peers_known(s, m));
}

/// An election that picks `m`, knows the connections it needs and gives the
/// commands that promote `m` has the outcome an election owes.
proof fn lemma_election_succeeds(s: RegistryView, m: NodeInfo, cmds: Seq<CommandView>)
    requires
        min_load_choice(s.node_state, s.node_list, Some(m)),
        election_peers_known(s, m),
        promotion_commands(s, m, cmds),
    ensures
        election_outcome(s, Ok(cmds)),
{
}

/// A node's key is never empty.
pub proof fn lemma_node_key_nonempty(n: NodeInfo)
    ensures
        node_key(n).len() > 0,
        node_key(n) != Seq::<char>::empty(),
{
    assert(node_key(n)[n.node_addr@.len() as int] == ':');
}

/// Dropping nodes keeps every remaining node's connection known.
pub proof fn lemma_peers_cover_after_expiry(s: RegistryView, now: i64)
    requires
        peers_cover(s),
    ensures
        peers_cover(after_expiry(s, now)),
{
    let t = after_expiry(s, now);
    assert forall|k: Seq<char>| #[trigger] t.node_list.dom().contains(k) implies t.peers.dom().contains(k)
        && t.peers.dom().contains(node_key(t.node_list[k])) by {
        assert(s.node_list.dom().contains(k));
    }
}

fn clone_peer(v: &Vec<u8>) -> (r: Vec<u8>)
    ensures
        r@ == v@,
{
    v.clone()
}

proof fn lemma_table_empty<V>(t: &KeyedTable<V>)
    requires
        t.wf(),
    ensures
        (t.entries().len() == 0) == (t@.dom() == Set::<Seq<char>>::empty()),
{
    t.lemma_view();
    if t.entries().len() == 0 {
        assert forall|k: Seq<char>| !t@.dom().contains(k) by {
            if t@.dom().contains(k) {
                let i = choose|i: int| 0 <= i < t.entries().len() && t.entries()[i].0 == k;
            }
        }
        assert(t@.dom() =~= Set::<Seq<char>>::empty());
    } else {
        assert(t@.dom().contains(t.entries()[0].0));
    }
}

/// The position of a least loaded state among those whose key is not
/// `exclude`.
fn min_load_index(states: &KeyedTable<NodeState>, exclude: Option<&String>) -> (r: Option<usize>)
    ensures
        r matches Some(i) ==> i < states.entries().len()
            && (exclude matches Some(x) ==> states.entries()[i as int].0 != x@)
            && is_min_load_key(
                match exclude { Some(x) => states@.remove(x@), None => states@ },
                states.entries()[i as int].0,
            ),
        r is None ==> (forall|k: Seq<char>| #[trigger] states@.dom().contains(k) ==> (exclude matches Some(x) && k == x@)),
{
    proof {
        use_type_invariant(states);
        states.lemma_view();
    }
    let ghost cands = match exclude { Some(x) => states@.remove(x@), None => states@ };
    let ghost es = states.entries();
    let mut best: Option<usize> = None;
    let mut i: usize = 0;
    let n = states.len();
    while i < n
        invariant
            n == es.len(),
            es == states.entries(),
            i <= n,
            cands == (match exclude { Some(x) => states@.remove(x@), None => states@ }),
            forall|j: int| #![trigger es[j]] 0 <= j < es.len() ==> states@.dom().contains(es[j].0) && states@[es[j].0] == es[j].1,
            forall|k: Seq<char>| #[trigger] states@.dom().contains(k) ==> exists|j: int| 0 <= j < es.len() && es[j].0 == k,
            best matches Some(b) ==> b < i && (exclude matches Some(x) ==> es[b as int].0 != x@),
            best matches Some(b) ==> forall|j: int| #![trigger es[j]] 0 <= j < i && (exclude matches Some(x) ==> es[j].0 != x@)
                ==> !f32_bits_lt(es[j].1.state_info.load_factor_bits, es[b as int].1.state_info.load_factor_bits),
            best is None ==> forall|j: int| #![trigger es[j]] 0 <= j < i ==> (exclude matches Some(x) && es[j].0 == x@),
        decreases n - i,
    {
        let k = states.key_at(i);
        let skip = match exclude {
            Some(x) => *k == *x,
            None => false,
        };
        if !skip {
            let st = states.value_at(i);
            match best {
                None => {
                    best = Some(i);
                },
                Some(b) => {
                    let cur = states.value_at(b);
                    if f32_bits_less(st.state_info.load_factor_bits, cur.state_info.load_factor_bits) {
                        best = Some(i);
                    }
                },
            }
        }
        i = i + 1;
    }
    proof {
        match best {
            Some(b) => {
                let kb = es[b as int].0;
                assert(es[b as int] == es[b as int]);
                assert(cands.dom().contains(kb));
                assert forall|k2: Seq<char>| #[trigger] cands.dom().contains(k2) implies
                    !f32_bits_lt(cands[k2].state_info.load_factor_bits, cands[kb].state_info.load_factor_bits) by {
                    assert(states@.dom().contains(k2));
                    let j = choose|j: int| 0 <= j < es.len() && es[j].0 == k2;
                    assert(es[j] == es[j]);
                }
            },
            None => {
                assert forall|k: Seq<char>| #[trigger] states@.dom().contains(k) implies (exclude matches Some(x) && k == x@) by {
                    let j = choose|j: int| 0 <= j < es.len() && es[j].0 == k;
                    assert(es[j] == es[j]);
                }
            },
        }
    }
    best
}

/// Picks a least loaded node: of the nodes in `node_list`, the one registered
/// under the key of a state whose load factor no other state's is below
/// (under the empty key when there is no state); nothing when `node_list`
/// is empty.
pub fn get_min_load_node(node_state_list: &KeyedTable<NodeState>, node_list: &KeyedTable<NodeInfo>) -> (r: Option<NodeInfo>)
    ensures
        min_load_choice(node_state_list@, node_list@, r),
{
    proof {
        use_type_invariant(node_list);
        use_type_invariant(node_state_list);
        lemma_table_empty(node_list);
        lemma_table_empty(node_state_list);
        node_state_list.lemma_view();
    }
    if node_list.len() == 0 {
        return None;
    }
    let idx = min_load_index(node_state_list, None);
    let key = match idx {
        Some(i) => node_state_list.key_at(i).clone(),
        None => String::new(),
    };
    let r = match node_list.get(&key) {
        Some(n) => Some(n.clone()),
        None => None,
    };
    proof {
        match idx {
            Some(i) => {
                assert(node_state_list@.dom().contains(key@));
                assert(is_min_load_key(node_state_list@, key@));
            },
            None => {
                assert(node_state_list@.dom() =~= Set::<Seq<char>>::empty());
            },
        }
    }
    r
}

impl AppContext {
    /// A registry center with no node.
    pub fn new() -> (c: Self)
        ensures
            c@.node_list == Map::<Seq<char>, NodeInfo>::empty(),
            c@.node_state == Map::<Seq<char>, NodeState>::empty(),
            c@.master_node is None,
            c@.peers == Map::<Seq<char>, Seq<u8>>::empty(),
    {
        let c = AppContext {
            node_list: KeyedTable::new(),
            node_state: KeyedTable::new(),
            master_node: None,
            node_id_peer_id_map: KeyedTable::new(),
        };
        proof {
            assert(c@.peers =~= Map::<Seq<char>, Seq<u8>>::empty());
        }
        c
    }

    /// Handles a registration from `client_id` on the connection `peer_id`
    /// at time `now`; gives the answer to send back, if any.
    pub fn register_at(&mut self, client_id: String, node_info: Option<NodeInfo>, peer_id: Vec<u8>, now: i64) -> (r: Option<RegisterResp>)
        ensures
            (final(self)@, resp_view(r)) == register_spec(old(self)@, client_id@, node_info, peer_id@, now),
    {
        if self.node_list.contains_key(&client_id) {
            return Some(RegisterResp::fail("already register"));
        }
        match node_info {
            None => None,
            Some(node_info) => {
                match node_info.node_type {
                    NodeType::Master => {
                        if self.master_node.is_some() {
                            return Some(RegisterResp::fail("only one master node can exist"));
                        } else {
                            self.master_node = Some(node_info.clone());
                        }
                    },
                    NodeType::Slave => {
                        if self.master_node.is_none() {
                            return Some(RegisterResp::fail("master node not exist,can't register slave"));
                        }
                    },
                }
                let ghost pre_peers = self@.peers;
                let ghost pid = peer_id@;
                self.node_list.insert(client_id.clone(), node_info);
                self.node_state.insert(client_id.clone(), NodeState::fresh_at(now));
                self.node_id_peer_id_map.insert(client_id, peer_id);
                proof {
                    assert(self@.peers =~= pre_peers.insert(client_id@, pid));
                }
                Some(RegisterResp::success())
            },
        }
    }

    /// Handles a load report from `client_id` at time `now`.
    pub fn report_at(&mut self, client_id: &String, state_info: Option<StateInfo>, now: i64)
        ensures
            final(self)@ == report_spec(old(self)@, client_id@, state_info, now),
    {
        match state_info {
            Some(si) => {
                if self.node_state.contains_key(client_id) {
                    self.node_state.insert(client_id.clone(), NodeState { last_heartbeat_time: now, state_info: si });
                }
            },
            None => {},
        }
    }

    /// Handles a request from `client_id` on the connection `peer_id` at
    /// time `now`; gives the answer to send back, if any.
    pub fn handle_msg_at(&mut self, client_id: String, request: RegistryRequest, peer_id: Vec<u8>, now: i64) -> (r: Option<RegisterResp>)
        ensures
            (final(self)@, resp_view(r)) == handle_spec(old(self)@, client_id@, request, peer_id@, now),
    {
        match request {
            RegistryRequest::Register(info) => self.register_at(client_id, info, peer_id, now),
            RegistryRequest::Report(info) => {
                self.report_at(&client_id, info, now);
                None
            },
            RegistryRequest::Other => None,
        }
    }

    /// Handles a request from `client_id` on the connection `peer_id`, at the
    /// time the wall clock gives; gives the answer to send back, if any.
    pub fn handle_msg_task(&mut self, client_id: String, request: RegistryRequest, peer_id: Vec<u8>) -> (r: Option<RegisterResp>)
        ensures
            exists|now: i64| #[trigger] handle_spec(old(self)@, client_id@, request, peer_id@, now) == (final(self)@, resp_view(r)),
    {
        let now = timestamp_millis_now();
        self.handle_msg_at(client_id, request, peer_id, now)
    }

    /// The current master, if any.
    pub fn get_master(&self) -> (r: Option<NodeInfo>)
        ensures
            r == self@.master_node,
    {
        match &self.master_node {
            Some(m) => Some(m.clone()),
            None => None,
        }
    }

    /// The registered nodes, in table order.
    pub fn nodes(&self) -> (r: Vec<NodeInfo>)
        ensures
            r@.len() == self.node_list.entries().len(),
            forall|i: int| 0 <= i < r@.len() ==> r@[i] == self.node_list.entries()[i].1,
    {
        let mut r: Vec<NodeInfo> = Vec::new();
        let mut i: usize = 0;
        let n = self.node_list.len();
        while i < n
            invariant
                n == self.node_list.entries().len(),
                i <= n,
                r@.len() == i,
                forall|j: int| 0 <= j < i ==> r@[j] == self.node_list.entries()[j].1,
            decreases n - i,
        {
            r.push(self.node_list.value_at(i).clone());
            i = i + 1;
        }
        r
    }

    /// The client id of a registered node of master type, if any.
    pub fn get_master_node_addr(&self) -> (r: Option<String>)
        ensures
            r matches Some(k) ==> self@.node_list.dom().contains(k@) && self@.node_list[k@].node_type == NodeType::Master,
            r is None ==> forall|k: Seq<char>| #[trigger] self@.node_list.dom().contains(k) ==> self@.node_list[k].node_type != NodeType::Master,
    {
        proof {
            use_type_invariant(&self.node_list);
            self.node_list.lemma_view();
        }
        let ghost es = self.node_list.entries();
        let mut i: usize = 0;
        let n = self.node_list.len();
        while i < n
            invariant
                n == es.len(),
                es == self.node_list.entries(),
                i <= n,
                forall|j: int| 0 <= j < i ==> es[j].1.node_type != NodeType::Master,
            decreases n - i,
        {
            if self.node_list.value_at(i).node_type == NodeType::Master {
                proof {
                    use_type_invariant(&self.node_list);
                    self.node_list.lemma_view();
                    assert(es[i as int] == es[i as int]);
                }
                return Some(self.node_list.key_at(i).clone());
            }
            i = i + 1;
        }
        proof {
            assert forall|k: Seq<char>| #[trigger] self@.node_list.dom().contains(k) implies self@.node_list[k].node_type != NodeType::Master by {
                let j = choose|j: int| 0 <= j < es.len() && es[j].0 == k;
                assert(es[j] == es[j]);
            }
        }
        None
    }

    /// The commands of an election among the registered nodes: the least
    /// loaded node is told to become the master and every other node is
    /// told of it; the key of a node to tell that has no known connection,
    /// where there is one. The state itself is left as it is.
    pub fn elect_master(&self) -> (r: Result<Vec<ClusterCommand>, String>)
        ensures
            election_outcome(self@, election_view(r)),
    {
        let chosen = get_min_load_node(&self.node_state, &self.node_list);
        match chosen {
            None => {
                let r: Vec<ClusterCommand> = Vec::new();
                proof {
                    assert(commands_view(r@) =~= Seq::<CommandView>::empty());
                    assert(min_load_choice(self@.node_state, self@.node_list, chosen));
                }
                Ok(r)
            },
            Some(m) => {
                let r = self.promote(&m);
                r
            },
        }
    }

    /// A registered key other than `mk` without a known connection, if any.
    fn find_missing_peer(&self, mk: &String) -> (r: Option<String>)
        ensures
            r is None ==> forall|k: Seq<char>| #[trigger] self@.node_list.dom().contains(k) && k != mk@
                ==> self@.peers.dom().contains(k),
            r matches Some(k) ==> self@.node_list.dom().contains(k@) && k@ != mk@ && !self@.peers.dom().contains(k@),
    {
        proof {
            use_type_invariant(&self.node_list);
            self.node_list.lemma_view();
        }
        let ghost es = self.node_list.entries();
        let mut i: usize = 0;
        let n = self.node_list.len();
        while i < n
            invariant
                n == es.len(),
                es == self.node_list.entries(),
                i <= n,
                forall|j: int| #![trigger es[j]] 0 <= j < es.len() ==> self@.node_list.dom().contains(es[j].0),
                forall|k: Seq<char>| #[trigger] self@.node_list.dom().contains(k) ==> exists|j: int| 0 <= j < es.len() && es[j].0 == k,
                forall|j: int| #![trigger es[j]] 0 <= j < i && es[j].0 != mk@ ==> self@.peers.dom().contains(es[j].0),
            decreases n - i,
        {
            let k = self.node_list.key_at(i);
            if *k != *mk && !self.node_id_peer_id_map.contains_key(k) {
                proof {
                    assert(es[i as int] == es[i as int]);
                }
                return Some(k.clone());
            }
            proof {
                assert(es[i as int] == es[i as int]);
            }
            i = i + 1;
        }
        proof {
            assert forall|k: Seq<char>| #[trigger] self@.node_list.dom().contains(k) && k != mk@ implies self@.peers.dom().contains(k) by {
                let j = choose|j: int| 0 <= j < es.len() && es[j].0 == k;
                assert(es[j] == es[j]);
            }
        }
        None
    }

    fn promote(&self, m: &NodeInfo) -> (r: Result<Vec<ClusterCommand>, String>)
        requires
            min_load_choice(self@.node_state, self@.node_list, Some(*m)),
        ensures
            election_outcome(self@, election_view(r)),
    {
        proof {
            use_type_invariant(&self.node_list);
            use_type_invariant(&self.node_id_peer_id_map);
            self.node_list.lemma_view();
            self.node_id_peer_id_map.lemma_view();
            lemma_table_empty(&self.node_list);
        }
        let ghost s = self@;
        let mk = m.get_key();
        let mut r: Vec<ClusterCommand> = Vec::new();
        let master_peer = match self.node_id_peer_id_map.get(&mk) {
            Some(p) => clone_peer(p),
            None => {
                proof {
                    lemma_election_fails(s, *m, mk@);
                }
                return Err(mk);
            },
        };
        match self.find_missing_peer(&mk) {
            Some(k) => {
                proof {
                    lemma_election_fails(s, *m, k@);
                }
                return Err(k);
            },
            None => {},
        }
        r.push(ClusterCommand::ConvertToMaster { peer: master_peer, client_id: mk.clone() });
        let ghost es = self.node_list.entries();
        let mut i: usize = 0;
        let n = self.node_list.len();
        while i < n
            invariant
                n == es.len(),
                es == self.node_list.entries(),
                s == self@,
                mk@ == node_key(*m),
                min_load_choice(s.node_state, s.node_list, Some(*m)),
                election_peers_known(s, *m),
                i <= n,
                forall|j: int| #![trigger es[j]] 0 <= j < es.len() ==> s.node_list.dom().contains(es[j].0) && s.node_list[es[j].0] == es[j].1,
                forall|k: Seq<char>| #[trigger] s.node_list.dom().contains(k) ==> exists|j: int| 0 <= j < es.len() && es[j].0 == k,
                crate::table::keys_unique(es),
                r@.len() >= 1,
                commands_view(r@)[0] == (CommandView::ConvertToMaster { peer: s.peers[node_key(*m)], client_id: node_key(*m) }),
                forall|a: int| 1 <= a < r@.len() ==> (#[trigger] commands_view(r@)[a] matches CommandView::ChangeMaster { peer, target, client_id, master }
                    && s.node_list.dom().contains(target) && target != node_key(*m) && peer == s.peers[target]
                    && client_id == node_key(*m) && master == *m),
                forall|a: int| 1 <= a < r@.len() ==> exists|j: int| 0 <= j < i && (#[trigger] commands_view(r@)[a])->target == es[j].0,
                forall|a: int, b: int| 1 <= a < b < r@.len() ==> (#[trigger] commands_view(r@)[a])->target != (#[trigger] commands_view(r@)[b])->target,
                forall|j: int| 0 <= j < i && es[j].0 != node_key(*m) ==> exists|a: int| 1 <= a < r@.len() && (#[trigger] commands_view(r@)[a])->target == es[j].0,
            decreases n - i,
        {
            let k = self.node_list.key_at(i);
            if *k != mk {
                proof {
                    assert(es[i as int] == es[i as int]);
                    assert(s.node_list.dom().contains(k@));
                }
                let peer = match self.node_id_peer_id_map.get(k) {
                    Some(p) => clone_peer(p),
                    None => {
                        proof {
                            assert(false);
                        }
                        return Err(k.clone());
                    },
                };
                let ghost old_r = commands_view(r@);
                r.push(ClusterCommand::ChangeMaster { peer, target: k.clone(), client_id: mk.clone(), master: m.clone() });
                proof {
                    let nv = commands_view(r@);
                    assert(nv =~= old_r.push(nv[old_r.len() as int]));
                    assert forall|a: int| 1 <= a < nv.len() implies exists|j: int| 0 <= j < i + 1 && (#[trigger] nv[a])->target == es[j].0 by {
                        if a < old_r.len() {
                            assert(nv[a] == old_r[a]);
                        } else {
                            assert(nv[a]->target == es[i as int].0);
                        }
                    }
                    assert forall|a: int, b: int| 1 <= a < b < nv.len() implies (#[trigger] nv[a])->target != (#[trigger] nv[b])->target by {
                        if b == old_r.len() {
                            assert(nv[a] == old_r[a]);
                            let j = choose|j: int| 0 <= j < i && old_r[a]->target == es[j].0;
                            assert(es[j].0 != es[i as int].0);
                        } else {
                            assert(nv[a] == old_r[a]);
                            assert(nv[b] == old_r[b]);
                        }
                    }
                    assert forall|j: int| 0 <= j < i + 1 && es[j].0 != node_key(*m) implies exists|a: int| 1 <= a < nv.len() && (#[trigger] nv[a])->target == es[j].0 by {
                        if j == i {
                            assert(nv[old_r.len() as int]->target == es[j].0);
                        } else {
                            let a = choose|a: int| 1 <= a < old_r.len() && (#[trigger] old_r[a])->target == es[j].0;
                            assert(nv[a] == old_r[a]);
                        }
                    }
                }
            } else {
                proof {
                    let nv = commands_view(r@);
                    assert forall|a: int| 1 <= a < nv.len() implies exists|j: int| 0 <= j < i + 1 && (#[trigger] nv[a])->target == es[j].0 by {
                        let j = choose|j: int| 0 <= j < i && nv[a]->target == es[j].0;
                    }
                }
            }
            i = i + 1;
        }
        proof {
            let cv = commands_view(r@);
            assert forall|t: Seq<char>| s.node_list.dom().contains(t) && t != node_key(*m) implies exists|a: int| 1 <= a < cv.len() && (#[trigger] cv[a])->target == t by {
                let j = choose|j: int| 0 <= j < es.len() && es[j].0 == t;
            }
            assert(promotion_commands(s, *m, cv));
            lemma_election_succeeds(s, *m, cv);
        }
        Ok(r)
    }

    /// Drops the nodes whose heartbeat expired at `now`; when the master was
    /// among them, there is no master any more and an election follows, whose
    /// commands (or the key it lacks a connection for) are given back.
    pub fn heartbeat_check_at(&mut self, now: i64) -> (r: Result<Vec<ClusterCommand>, String>)
        ensures
            final(self)@ == after_expiry(old(self)@, now),
            master_lost(old(self)@, now) ==> election_outcome(after_expiry(old(self)@, now), election_view(r)),
            !master_lost(old(self)@, now) ==> (r matches Ok(cmds) && cmds@.len() == 0),
    {
        proof {
            use_type_invariant(&self.node_state);
            self.node_state.lemma_view();
        }
        let ghost s = self@;
        let ghost es = self.node_state.entries();
        let master_key: Option<String> = match &self.master_node {
            Some(m) => Some(m.get_key()),
            None => None,
        };
        let mut del: Vec<String> = Vec::new();
        let mut need_elect = false;
        let mut i: usize = 0;
        let n = self.node_state.len();
        while i < n
            invariant
                n == es.len(),
                es == self.node_state.entries(),
                s == self@,
                i <= n,
                master_key matches Some(mk) ==> s.master_node matches Some(m) && mk@ == node_key(m),
                master_key is None ==> s.master_node is None,
                forall|k: Seq<char>| key_set(del@).contains(k) <==> exists|e: int| #![trigger es[e]] 0 <= e < i && es[e].0 == k && is_expired(es[e].1, now),
                need_elect == (master_key matches Some(mk) && key_set(del@).contains(mk@)),
            decreases n - i,
        {
            let k = self.node_state.key_at(i);
            let st = self.node_state.value_at(i);
            if (now as i128) - (st.last_heartbeat_time as i128) > NODE_HEARTBEAT_TIMEOUT_MILLIS as i128 {
                let ghost old_del = del@;
                del.push(k.clone());
                proof {
                    assert forall|kk: Seq<char>| key_set(del@).contains(kk) <==> exists|e: int| #![trigger es[e]] 0 <= e < i + 1 && es[e].0 == kk && is_expired(es[e].1, now) by {
                        if key_set(del@).contains(kk) {
                            let a = choose|a: int| #![trigger del@[a]] 0 <= a < del@.len() && del@[a]@ == kk;
                            if a < old_del.len() {
                                assert(old_del[a] == del@[a]);
                                assert(key_set(old_del).contains(kk));
                            } else {
                                assert(es[i as int].0 == kk);
                            }
                        }
                        if exists|e: int| #![trigger es[e]] 0 <= e < i + 1 && es[e].0 == kk && is_expired(es[e].1, now) {
                            let e = choose|e: int| #![trigger es[e]] 0 <= e < i + 1 && es[e].0 == kk && is_expired(es[e].1, now);
                            if e < i {
                                assert(key_set(old_del).contains(kk));
                                let a = choose|a: int| #![trigger old_del[a]] 0 <= a < old_del.len() && old_del[a]@ == kk;
                                assert(del@[a] == old_del[a]);
                            } else {
                                assert(del@[old_del.len() as int]@ == kk);
                            }
                        }
                    }
                }
                match &master_key {
                    Some(mk) => {
                        if *mk == *k {
                            need_elect = true;
                            proof {
                                assert(del@[del@.len() - 1]@ == mk@);
                            }
                        }
                    },
                    None => {},
                }
            } else {
                proof {
                    assert forall|kk: Seq<char>| key_set(del@).contains(kk) <==> exists|e: int| #![trigger es[e]] 0 <= e < i + 1 && es[e].0 == kk && is_expired(es[e].1, now) by {
                        if exists|e: int| #![trigger es[e]] 0 <= e < i + 1 && es[e].0 == kk && is_expired(es[e].1, now) {
                            let e = choose|e: int| #![trigger es[e]] 0 <= e < i + 1 && es[e].0 == kk && is_expired(es[e].1, now);
                            if e == i {
                                assert(!is_expired(es[i as int].1, now));
                            }
                        }
                    }
                }
            }
            i = i + 1;
        }
        proof {
            assert(key_set(del@) =~= expired_keys(s, now)) by {
                assert forall|k: Seq<char>| key_set(del@).contains(k) implies expired_keys(s, now).contains(k) by {
                    let e = choose|e: int| #![trigger es[e]] 0 <= e < n && es[e].0 == k && is_expired(es[e].1, now);
                    assert(es[e] == es[e]);
                }
                assert forall|k: Seq<char>| expired_keys(s, now).contains(k) implies key_set(del@).contains(k) by {
                    let e = choose|e: int| 0 <= e < es.len() && es[e].0 == k;
                    assert(es[e] == es[e]);
                }
            }
            assert(need_elect == master_lost(s, now));
        }
        self.node_state.remove_all(&del);
        self.node_list.remove_all(&del);
        if need_elect {
            self.master_node = None;
            self.elect_master()
        } else {
            Ok(Vec::new())
        }
    }

    /// Drops the nodes whose heartbeat expired, at the time the wall clock
    /// gives, and holds an election when the master was among them.
    pub fn heartbeat_check(&mut self) -> (r: Result<Vec<ClusterCommand>, String>)
        ensures
            exists|now: i64| #![trigger after_expiry(old(self)@, now)] {
                &&& final(self)@ == after_expiry(old(self)@, now)
                &&& master_lost(old(self)@, now) ==> election_outcome(after_expiry(old(self)@, now), election_view(r))
                &&& !master_lost(old(self)@, now) ==> (r matches Ok(cmds) && cmds@.len() == 0)
            },
    {
        let now = timestamp_millis_now();
        self.heartbeat_check_at(now)
    }

    /// The node a client should connect to: no node when none is
    /// registered; the only node when there is one; otherwise a least loaded
    /// node other than the master, provided its load factor is below 1. It
    /// cannot answer when two nodes or more have no master, or when the
    /// least loaded node's own key has no load record once the master's is
    /// set aside.
    pub fn get_load_banlance_connection(&self) -> (r: Result<Option<NodeInfo>, LoadBalanceError>)
        ensures
            load_balance_spec(self@, r),
    {
        proof {
            use_type_invariant(&self.node_list);
            use_type_invariant(&self.node_state);
            self.node_list.lemma_view();
            self.node_state.lemma_view();
            lemma_table_empty(&self.node_list);
        }
        let ghost s = self@;
        let n = self.node_list.len();
        if n == 0 {
            return Ok(None);
        }
        if n == 1 {
            let node = self.node_list.value_at(0).clone();
            proof {
                let es = self.node_list.entries();
                let k0 = es[0].0;
                assert(s.node_list.dom() =~= set![k0]) by {
                    assert forall|k: Seq<char>| s.node_list.dom().contains(k) implies k == k0 by {
                        let j = choose|j: int| 0 <= j < es.len() && es[j].0 == k;
                    }
                    assert(es[0] == es[0]);
                }
                assert(single_key(s.node_list.dom()));
                assert(set![k0].contains(set![k0].choose()));
            }
            return Ok(Some(node));
        }
        proof {
            let es = self.node_list.entries();
            assert(es[0] == es[0]);
            assert(es[1] == es[1]);
            assert(es[0].0 != es[1].0);
            if single_key(s.node_list.dom()) {
                let k = choose|k: Seq<char>| s.node_list.dom() == set![k];
                assert(s.node_list.dom().contains(es[0].0));
                assert(s.node_list.dom().contains(es[1].0));
            }
        }
        let mk = match &self.master_node {
            Some(m) => m.get_key(),
            None => {
                return Err(LoadBalanceError::NoMaster);
            },
        };
        let ghost cands = s.node_state.remove(mk@);
        let idx = min_load_index(&self.node_state, Some(&mk));
        let key = match idx {
            Some(i) => self.node_state.key_at(i).clone(),
            None => String::new(),
        };
        let chosen = match self.node_list.get(&key) {
            Some(nd) => Some(nd.clone()),
            None => None,
        };
        proof {
            match idx {
                Some(i) => {
                    assert(is_min_load_key(cands, key@));
                    assert(min_load_choice(cands, s.node_list, chosen));
                },
                None => {
                    assert(cands.dom() =~= Set::<Seq<char>>::empty());
                    assert(min_load_choice(cands, s.node_list, chosen));
                },
            }
        }
        match chosen {
            None => Ok(None),
            Some(node) => {
                let nk = node.get_key();
                if nk == mk {
                    proof {
                        assert(!cands.dom().contains(nk@));
                    }
                    return Err(LoadBalanceError::NoLoadRecord);
                }
                match self.node_state.get(&nk) {
                    Some(st) => {
                        proof {
                            assert(cands.dom().contains(nk@));
                            assert(cands[nk@] == *st);
                        }
                        if f32_bits_less(st.state_info.load_factor_bits, 0x3f80_0000) {
                            Ok(Some(node))
                        } else {
                            Ok(None)
                        }
                    },
                    None => {
                        proof {
                            assert(!cands.dom().contains(nk@));
                        }
                        Err(LoadBalanceError::NoLoadRecord)
                    },
                }
            },
        }
    }
}

} // verus!
